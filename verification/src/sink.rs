//! The bookkeeping of the topic sink: which partition each record goes to,
//! and the transactions that buffer records until a checkpoint.

use std::collections::HashMap;
use vstd::prelude::*;
use vstd::std_specs::hash::group_hash_axioms;
use crate::clock::new_uuid_text;
use crate::scaling::copy_string;
use crate::text::{append_chars, chars_of, decimal, string_from_chars, u64_to_decimal};

verus! {

broadcast use group_hash_axioms;

/// How records are spread over partitions.
#[derive(Debug, Clone, Copy, PartialEq, Eq, Structural)]
pub enum PartitionStrategy {
    /// In turn.
    RoundRobin,
    /// By the record's position in its batch.
    Hash,
    /// By the record's position in its batch.
    Custom,
}

/// Where a transaction stands.
#[derive(Debug, Clone, Copy, PartialEq, Eq, Structural)]
pub enum TransactionState {
    NotStarted,
    Started,
    Committed,
    Aborted,
}

/// Records held back until a checkpoint commits them.
#[derive(Debug)]
pub struct Transaction {
    pub id: String,
    pub state: TransactionState,
    /// The records of each partition, in the order they came.
    pub buffered_messages: HashMap<u32, Vec<Vec<u8>>>,
    pub checkpoint_id: Option<u32>,
}

/// The buffered records of each partition, as byte sequences.
pub open spec fn buffers_view(m: Map<u32, Vec<Vec<u8>>>) -> Map<u32, Seq<Seq<u8>>> {
    m.map_values(|v: Vec<Vec<u8>>| v@.map_values(|x: Vec<u8>| x@))
}

impl Transaction {
    /// A transaction that has not started and holds nothing.
    pub fn new(id: String) -> (t: Self)
        ensures
            t.id == id,
            t.state == TransactionState::NotStarted,
            t.buffered_messages@ == Map::<u32, Vec<Vec<u8>>>::empty(),
            t.checkpoint_id is None,
    {
        Transaction { id, state: TransactionState::NotStarted, buffered_messages: HashMap::new(), checkpoint_id: None }
    }

    pub fn start(&mut self)
        ensures
            final(self).state == TransactionState::Started,
            final(self).id == old(self).id,
            final(self).buffered_messages == old(self).buffered_messages,
            final(self).checkpoint_id == old(self).checkpoint_id,
    {
        self.state = TransactionState::Started;
    }

    /// Holds a record back for `partition`, after the ones already held.
    pub fn buffer_message(&mut self, partition: u32, message: Vec<u8>)
        ensures
            buffers_view(final(self).buffered_messages@) == buffers_view(old(self).buffered_messages@).insert(
                partition,
                if old(self).buffered_messages@.contains_key(partition) {
                    buffers_view(old(self).buffered_messages@)[partition].push(message@)
                } else {
                    seq![message@]
                },
            ),
            final(self).id == old(self).id,
            final(self).state == old(self).state,
            final(self).checkpoint_id == old(self).checkpoint_id,
    {
        let ghost before = self.buffered_messages@;
        let ghost msg = message@;
        let mut held = match self.buffered_messages.remove(&partition) {
            Some(v) => v,
            None => Vec::new(),
        };
        let ghost held0 = held@;
        held.push(message);
        self.buffered_messages.insert(partition, held);
        proof {
            let bv = buffers_view(before);
            let expected = if before.contains_key(partition) {
                bv[partition].push(msg)
            } else {
                seq![msg]
            };
            assert(held@.map_values(|x: Vec<u8>| x@) =~= expected);
            assert(buffers_view(self.buffered_messages@) =~= bv.insert(partition, expected));
        }
    }

    pub fn commit(&mut self)
        ensures
            final(self).state == TransactionState::Committed,
            final(self).id == old(self).id,
            final(self).buffered_messages == old(self).buffered_messages,
            final(self).checkpoint_id == old(self).checkpoint_id,
    {
        self.state = TransactionState::Committed;
    }

    pub fn abort(&mut self)
        ensures
            final(self).state == TransactionState::Aborted,
            final(self).id == old(self).id,
            final(self).buffered_messages == old(self).buffered_messages,
            final(self).checkpoint_id == old(self).checkpoint_id,
    {
        self.state = TransactionState::Aborted;
    }

    pub fn set_checkpoint_id(&mut self, checkpoint_id: u32)
        ensures
            final(self).checkpoint_id == Some(checkpoint_id),
            final(self).id == old(self).id,
            final(self).state == old(self).state,
            final(self).buffered_messages == old(self).buffered_messages,
    {
        self.checkpoint_id = Some(checkpoint_id);
    }
}

/// A fresh transaction identifier for `topic`: `tx-`, the topic, `-` and a
/// random UUID, then `-` and the checkpoint epoch when one is given.
pub fn new_transaction_id(topic: &str, epoch: Option<u32>) -> (id: String)
    ensures
        ({
            let head = "tx-"@ + topic@ + "-"@;
            &&& id@.len() == head.len() + 36 + match epoch {
                Some(e) => 1 + decimal(e as nat).len(),
                None => 0,
            }
            &&& id@.subrange(0, head.len() as int) == head
            &&& epoch matches Some(e) ==> id@.subrange(id@.len() - decimal(e as nat).len() - 1, id@.len() as int)
                == "-"@ + decimal(e as nat)
        }),
{
    proof {
        reveal_strlit("-");
    }
    let mut cs = chars_of("tx-");
    append_chars(&mut cs, topic);
    append_chars(&mut cs, "-");
    let ghost head = cs@;
    let uuid = new_uuid_text();
    append_chars(&mut cs, uuid.as_str());
    let ghost body = cs@;
    match epoch {
        Some(e) => {
            append_chars(&mut cs, "-");
            let digits = u64_to_decimal(e as u64);
            append_chars(&mut cs, digits.as_str());
            proof {
                assert(cs@.subrange(0, head.len() as int) =~= head);
                assert(cs@.subrange(cs@.len() - digits@.len() - 1, cs@.len() as int) =~= "-"@ + digits@);
            }
        },
        None => {
            proof {
                assert(cs@.subrange(0, head.len() as int) =~= head);
            }
        },
    }
    string_from_chars(&cs)
}

/// The partition choice of a sink: its strategy, how many partitions the
/// topic has, and the next partition in turn.
#[derive(Debug, Clone, Copy)]
pub struct SinkPartitioner {
    pub partition_strategy: PartitionStrategy,
    pub partition_count: usize,
    pub current_partition_index: usize,
}

impl SinkPartitioner {
    /// The partition of the record at `index` in its batch: in turn for
    /// round-robin (and the turn moves on), by position otherwise.
    pub fn determine_partition(&mut self, index: usize) -> (p: u32)
        requires
            old(self).partition_count > 0,
            old(self).partition_count <= u32::MAX + 1,
        ensures
            final(self).partition_strategy == old(self).partition_strategy,
            final(self).partition_count == old(self).partition_count,
            match old(self).partition_strategy {
                PartitionStrategy::RoundRobin => {
                    &&& p == old(self).current_partition_index % old(self).partition_count
                    &&& final(self).current_partition_index
                        == (old(self).current_partition_index + 1) % (old(self).partition_count as int)
                },
                _ => p == index % old(self).partition_count
                    && final(self).current_partition_index == old(self).current_partition_index,
            },
    {
        match self.partition_strategy {
            PartitionStrategy::RoundRobin => {
                let partition = self.current_partition_index % self.partition_count;
                let next = (self.current_partition_index % self.partition_count + 1) % self.partition_count;
                proof {
                    let (c, n) = (self.current_partition_index as int, self.partition_count as int);
                    assert((c % n + 1) % n == (c + 1) % n) by (nonlinear_arith) requires n > 0, c >= 0;
                }
                self.current_partition_index = next;
                partition as u32
            },
            _ => (index % self.partition_count) as u32,
        }
    }
}

/// The decisions of a topic sink between its writes: whether records are
/// written at once or held in the current transaction, when the held
/// records are flushed, and what a checkpoint commits. Writing is left to
/// the caller.
#[derive(Debug)]
pub struct TopicSinkRun {
    pub topic: String,
    pub transactional: bool,
    pub partitioner: SinkPartitioner,
    pub current_transaction: Option<Transaction>,
    pub last_committed_transaction_id: Option<String>,
    pub buffer_size_limit: usize,
    pub current_buffer_size: usize,
}

/// The records of a batch with their partitions, in order.
pub open spec fn routed(values: Seq<Vec<u8>>, partitions: Seq<u32>) -> Seq<(u32, Vec<u8>)> {
    Seq::new(values.len(), |i: int| (partitions[i], values[i]))
}

/// What the partitioner gives for the records at positions `0 .. n` of a
/// batch, in turn, starting from `next`, the turn it is at.
pub open spec fn batch_partitions(strategy: PartitionStrategy, count: usize, next: usize, n: nat) -> Seq<u32> {
    Seq::new(n, |i: int| match strategy {
        PartitionStrategy::RoundRobin => ((next + i) % (count as int)) as u32,
        _ => (i % (count as int)) as u32,
    })
}

/// Where the turn of the partitioner is after `n` records from `next`.
pub open spec fn turn_after(strategy: PartitionStrategy, count: usize, next: usize, n: nat) -> usize {
    match strategy {
        PartitionStrategy::RoundRobin => if n == 0 { next } else { ((next + n) % (count as int)) as usize },
        _ => next,
    }
}

impl TopicSinkRun {
    /// A sink for `topic`: round-robin over 3 partitions, not
    /// transactional, flushing at 1000 held records.
    pub fn new(topic: String) -> (r: Self)
        ensures
            r.topic == topic,
            !r.transactional,
            r.partitioner == (SinkPartitioner {
                partition_strategy: PartitionStrategy::RoundRobin,
                partition_count: 3,
                current_partition_index: 0,
            }),
            r.current_transaction is None,
            r.last_committed_transaction_id is None,
            r.buffer_size_limit == 1000,
            r.current_buffer_size == 0,
    {
        TopicSinkRun {
            topic,
            transactional: false,
            partitioner: SinkPartitioner {
                partition_strategy: PartitionStrategy::RoundRobin,
                partition_count: 3,
                current_partition_index: 0,
            },
            current_transaction: None,
            last_committed_transaction_id: None,
            buffer_size_limit: 1000,
            current_buffer_size: 0,
        }
    }

    /// The same sink with another partition strategy.
    pub fn with_partition_strategy(self, strategy: PartitionStrategy) -> (r: Self)
        ensures
            r.partitioner.partition_strategy == strategy,
            r.partitioner.partition_count == self.partitioner.partition_count,
            r.partitioner.current_partition_index == self.partitioner.current_partition_index,
            r.topic == self.topic,
            r.transactional == self.transactional,
            r.current_transaction == self.current_transaction,
            r.last_committed_transaction_id == self.last_committed_transaction_id,
            r.buffer_size_limit == self.buffer_size_limit,
            r.current_buffer_size == self.current_buffer_size,
    {
        let mut r = self;
        r.partitioner.partition_strategy = strategy;
        r
    }

    /// The same sink, transactional.
    pub fn with_transactions(self) -> (r: Self)
        ensures
            r.transactional,
            r.partitioner == self.partitioner,
            r.topic == self.topic,
            r.current_transaction == self.current_transaction,
            r.last_committed_transaction_id == self.last_committed_transaction_id,
            r.buffer_size_limit == self.buffer_size_limit,
            r.current_buffer_size == self.current_buffer_size,
    {
        let mut r = self;
        r.transactional = true;
        r
    }

    /// The same sink over `count` partitions.
    pub fn with_partition_count(self, count: usize) -> (r: Self)
        ensures
            r.partitioner.partition_count == count,
            r.partitioner.partition_strategy == self.partitioner.partition_strategy,
            r.partitioner.current_partition_index == self.partitioner.current_partition_index,
            r.topic == self.topic,
            r.transactional == self.transactional,
            r.current_transaction == self.current_transaction,
            r.last_committed_transaction_id == self.last_committed_transaction_id,
            r.buffer_size_limit == self.buffer_size_limit,
            r.current_buffer_size == self.current_buffer_size,
    {
        let mut r = self;
        r.partitioner.partition_count = count;
        r
    }

    /// The same sink, flushing at `limit` held records.
    pub fn with_buffer_size_limit(self, limit: usize) -> (r: Self)
        ensures
            r.buffer_size_limit == limit,
            r.partitioner == self.partitioner,
            r.topic == self.topic,
            r.transactional == self.transactional,
            r.current_transaction == self.current_transaction,
            r.last_committed_transaction_id == self.last_committed_transaction_id,
            r.current_buffer_size == self.current_buffer_size,
    {
        let mut r = self;
        r.buffer_size_limit = limit;
        r
    }

    /// Once the producers exist: a transactional sink opens its first
    /// transaction, `tx-`, the topic, `-` and a random UUID, and starts it.
    pub fn on_started(&mut self)
        ensures
            final(self).topic == old(self).topic,
            final(self).transactional == old(self).transactional,
            final(self).partitioner == old(self).partitioner,
            final(self).buffer_size_limit == old(self).buffer_size_limit,
            final(self).current_buffer_size == old(self).current_buffer_size,
            final(self).last_committed_transaction_id == old(self).last_committed_transaction_id,
            old(self).transactional ==> (final(self).current_transaction matches Some(t)
                && t.state == TransactionState::Started && t.buffered_messages@ == Map::<u32, Vec<Vec<u8>>>::empty()
                && t.checkpoint_id is None && t.id@.subrange(0, ("tx-"@ + old(self).topic@ + "-"@).len() as int)
                == "tx-"@ + old(self).topic@ + "-"@ && t.id@.len() == ("tx-"@ + old(self).topic@ + "-"@).len() + 36),
            !old(self).transactional ==> final(self).current_transaction == old(self).current_transaction,
    {
        if self.transactional {
            let mut t = Transaction::new(new_transaction_id(self.topic.as_str(), None));
            t.start();
            self.current_transaction = Some(t);
        }
    }

    /// Takes a batch of serialized records: each gets its partition in
    /// turn; a transactional sink holds them in its transaction (none is
    /// kept when it has none) and counts them, any other sink hands them
    /// back to be written now. A transactional sink with a transaction
    /// flushes when it holds at least its limit or when the flush interval
    /// has gone by; the second result says so.
    pub fn process_batch(&mut self, values: Vec<Vec<u8>>, flush_interval_elapsed: bool) -> (r: (Vec<(u32, Vec<u8>)>, bool))
        requires
            old(self).partitioner.partition_count > 0,
            old(self).partitioner.partition_count <= u32::MAX + 1,
            old(self).current_buffer_size + values@.len() <= usize::MAX,
        ensures
            ({
                let pv = old(self).partitioner;
                let parts = batch_partitions(pv.partition_strategy, pv.partition_count, pv.current_partition_index, values@.len());
                &&& final(self).partitioner.partition_strategy == pv.partition_strategy
                &&& final(self).partitioner.partition_count == pv.partition_count
                &&& final(self).partitioner.current_partition_index == turn_after(pv.partition_strategy,
                    pv.partition_count, pv.current_partition_index, values@.len())
                &&& !old(self).transactional ==> r.0@ == routed(values@, parts) && !r.1
                    && final(self).current_transaction == old(self).current_transaction
                    && final(self).current_buffer_size == old(self).current_buffer_size
                &&& old(self).transactional ==> r.0@.len() == 0 && match old(self).current_transaction {
                    None => final(self).current_transaction is None && final(self).current_buffer_size
                        == old(self).current_buffer_size && !r.1,
                    Some(t) => final(self).current_transaction matches Some(u) && u.id == t.id && u.checkpoint_id
                        == t.checkpoint_id && (t.state == TransactionState::NotStarted ==> u.state
                        == TransactionState::Started) && (t.state != TransactionState::NotStarted ==> u.state == t.state)
                        && buffers_view(u.buffered_messages@) == held_after(buffers_view(t.buffered_messages@),
                        routed(values@, parts)) && final(self).current_buffer_size == old(self).current_buffer_size
                        + values@.len() && r.1 == (final(self).current_buffer_size >= old(self).buffer_size_limit
                        || flush_interval_elapsed),
                }
            }),
            final(self).topic == old(self).topic,
            final(self).transactional == old(self).transactional,
            final(self).buffer_size_limit == old(self).buffer_size_limit,
            final(self).last_committed_transaction_id == old(self).last_committed_transaction_id,
    {
        let ghost pv = self.partitioner;
        let ghost all = values@;
        let ghost parts = batch_partitions(pv.partition_strategy, pv.partition_count, pv.current_partition_index, all.len());
        let ghost held0 = match old(self).current_transaction {
            Some(t) => buffers_view(t.buffered_messages@),
            None => Map::empty(),
        };
        if self.transactional {
            match &mut self.current_transaction {
                Some(t) => {
                    if t.state == TransactionState::NotStarted {
                        t.start();
                    }
                },
                None => {},
            }
        }
        let mut writes: Vec<(u32, Vec<u8>)> = Vec::new();
        let mut rest = values;
        let n = rest.len();
        let mut count: usize = 0;
        while rest.len() > 0
            invariant
                count + rest@.len() == n,
                n == all.len(),
                rest@ == all.subrange(count as int, all.len() as int),
                parts == batch_partitions(pv.partition_strategy, pv.partition_count, pv.current_partition_index, all.len()),
                self.partitioner.partition_strategy == pv.partition_strategy,
                self.partitioner.partition_count == pv.partition_count,
                pv.partition_count > 0,
                pv.partition_count <= u32::MAX + 1,
                self.partitioner.current_partition_index == turn_after(pv.partition_strategy, pv.partition_count,
                    pv.current_partition_index, count as nat),
                self.topic == old(self).topic,
                self.transactional == old(self).transactional,
                self.buffer_size_limit == old(self).buffer_size_limit,
                self.last_committed_transaction_id == old(self).last_committed_transaction_id,
                old(self).current_buffer_size + all.len() <= usize::MAX,
                !self.transactional ==> writes@ == routed(all.subrange(0, count as int), parts.subrange(0, count as int))
                    && self.current_transaction == old(self).current_transaction
                    && self.current_buffer_size == old(self).current_buffer_size,
                self.transactional ==> writes@.len() == 0 && match old(self).current_transaction {
                    None => self.current_transaction is None && self.current_buffer_size == old(self).current_buffer_size,
                    Some(t) => self.current_transaction matches Some(u) && u.id == t.id && u.checkpoint_id == t.checkpoint_id
                        && (t.state == TransactionState::NotStarted ==> u.state == TransactionState::Started)
                        && (t.state != TransactionState::NotStarted ==> u.state == t.state)
                        && buffers_view(u.buffered_messages@) == held_after(held0, routed(all.subrange(0, count as int),
                        parts.subrange(0, count as int))) && self.current_buffer_size == old(self).current_buffer_size + count
                        && held0 == buffers_view(t.buffered_messages@),
                },
            decreases rest.len(),
        {
            let value = rest.remove(0);
            proof {
                assert(value == all[count as int]);
                assert(rest@ =~= all.subrange(count + 1, all.len() as int));
                lemma_turn_step(pv.partition_strategy, pv.partition_count, pv.current_partition_index, count as nat);
            }
            let partition = self.partitioner.determine_partition(count);
            proof {
                assert(partition == parts[count as int]);
                assert(routed(all.subrange(0, count + 1), parts.subrange(0, count + 1)) =~= routed(
                    all.subrange(0, count as int),
                    parts.subrange(0, count as int),
                ).push((partition, value)));
            }
            proof {
                let recs = routed(all.subrange(0, count + 1), parts.subrange(0, count + 1));
                assert(recs.drop_last() =~= routed(all.subrange(0, count as int), parts.subrange(0, count as int)));
                assert(recs.last() == (partition, value));
            }
            if self.transactional {
                match &mut self.current_transaction {
                    Some(t) => {
                        let ghost bv = buffers_view(t.buffered_messages@);
                        t.buffer_message(partition, value);
                        proof {
                            assert(buffers_view(t.buffered_messages@) == bv.insert(
                                partition,
                                if bv.contains_key(partition) { bv[partition].push(value@) } else { seq![value@] },
                            ));
                        }
                        self.current_buffer_size = self.current_buffer_size + 1;
                    },
                    None => {},
                }
            } else {
                writes.push((partition, value));
            }
            count = count + 1;
        }
        proof {
            assert(all.subrange(0, count as int) =~= all);
            assert(parts.subrange(0, count as int) =~= parts);
        }
        let flush = self.transactional && self.current_transaction.is_some() && (self.current_buffer_size
            >= self.buffer_size_limit || flush_interval_elapsed);
        (writes, flush)
    }

    /// After every held record of the current transaction has been
    /// written: the sink holds nothing unflushed any more.
    pub fn flushed(&mut self)
        ensures
            old(self).current_transaction is Some ==> final(self).current_buffer_size == 0,
            old(self).current_transaction is None ==> final(self).current_buffer_size == old(self).current_buffer_size,
            final(self).current_transaction == old(self).current_transaction,
            final(self).topic == old(self).topic,
            final(self).transactional == old(self).transactional,
            final(self).partitioner == old(self).partitioner,
            final(self).buffer_size_limit == old(self).buffer_size_limit,
            final(self).last_committed_transaction_id == old(self).last_committed_transaction_id,
    {
        if self.current_transaction.is_some() {
            self.current_buffer_size = 0;
        }
    }

    /// At a checkpoint of `epoch`: a transactional sink with a transaction
    /// marks it with the epoch and commits it, which first flushes its held
    /// records; the result says whether that is to happen.
    pub fn checkpoint(&mut self, epoch: u32) -> (commit: bool)
        ensures
            commit == (old(self).transactional && old(self).current_transaction is Some),
            commit ==> (final(self).current_transaction matches Some(u) && old(self).current_transaction matches Some(t)
                && u.id == t.id && u.state == t.state && u.buffered_messages == t.buffered_messages
                && u.checkpoint_id == Some(epoch)),
            !commit ==> final(self).current_transaction == old(self).current_transaction,
            final(self).current_buffer_size == old(self).current_buffer_size,
            final(self).topic == old(self).topic,
            final(self).transactional == old(self).transactional,
            final(self).partitioner == old(self).partitioner,
            final(self).buffer_size_limit == old(self).buffer_size_limit,
            final(self).last_committed_transaction_id == old(self).last_committed_transaction_id,
    {
        if !self.transactional {
            return false;
        }
        match &mut self.current_transaction {
            Some(t) => {
                t.set_checkpoint_id(epoch);
                true
            },
            None => false,
        }
    }

    /// Ends a checkpoint of `epoch` whose commit flushed the held records,
    /// successfully or not: when the flush went through, the transaction
    /// commits and becomes the last committed one; either way a new
    /// transaction, `tx-`, the topic, `-`, a random UUID, `-` and the
    /// epoch, opens and starts.
    pub fn finish_checkpoint(&mut self, epoch: u32, flushed_ok: bool)
        requires
            old(self).current_transaction is Some,
        ensures
            flushed_ok ==> final(self).current_buffer_size == 0,
            flushed_ok ==> (final(self).last_committed_transaction_id matches Some(c)
                && c@ == old(self).current_transaction->0.id@),
            !flushed_ok ==> final(self).current_buffer_size == old(self).current_buffer_size
                && final(self).last_committed_transaction_id == old(self).last_committed_transaction_id,
            (final(self).current_transaction matches Some(u) && u.state == TransactionState::Started
                && u.buffered_messages@ == Map::<u32, Vec<Vec<u8>>>::empty() && u.checkpoint_id is None
                && u.id@.subrange(0, ("tx-"@ + old(self).topic@ + "-"@).len() as int) == "tx-"@ + old(self).topic@ + "-"@
                && u.id@.subrange(u.id@.len() - decimal(epoch as nat).len() - 1, u.id@.len() as int)
                == "-"@ + decimal(epoch as nat)),
            final(self).topic == old(self).topic,
            final(self).transactional == old(self).transactional,
            final(self).partitioner == old(self).partitioner,
            final(self).buffer_size_limit == old(self).buffer_size_limit,
    {
        if flushed_ok {
            self.current_buffer_size = 0;
            match &mut self.current_transaction {
                Some(t) => {
                    t.commit();
                    self.last_committed_transaction_id = Some(copy_string(&t.id));
                },
                None => {},
            }
        }
        let mut next = Transaction::new(new_transaction_id(self.topic.as_str(), Some(epoch)));
        next.start();
        self.current_transaction = Some(next);
    }

    /// Aborts the current transaction, if any: it is marked aborted and the
    /// sink holds nothing unflushed any more.
    pub fn abort_transaction(&mut self)
        ensures
            old(self).current_transaction matches Some(t) ==> (final(self).current_transaction matches Some(u)
                && u.state == TransactionState::Aborted && u.id == t.id && u.buffered_messages == t.buffered_messages
                && u.checkpoint_id == t.checkpoint_id && final(self).current_buffer_size == 0),
            old(self).current_transaction is None ==> final(self).current_transaction is None
                && final(self).current_buffer_size == old(self).current_buffer_size,
            final(self).topic == old(self).topic,
            final(self).transactional == old(self).transactional,
            final(self).partitioner == old(self).partitioner,
            final(self).buffer_size_limit == old(self).buffer_size_limit,
            final(self).last_committed_transaction_id == old(self).last_committed_transaction_id,
    {
        match &mut self.current_transaction {
            Some(t) => {
                t.abort();
                self.current_buffer_size = 0;
            },
            None => {},
        }
    }
}

/// The held records of each partition after holding `records` in order.
pub open spec fn held_after(held: Map<u32, Seq<Seq<u8>>>, records: Seq<(u32, Vec<u8>)>) -> Map<u32, Seq<Seq<u8>>>
    decreases records.len(),
{
    if records.len() == 0 {
        held
    } else {
        let before = held_after(held, records.drop_last());
        let (p, m) = records.last();
        before.insert(p, if before.contains_key(p) { before[p].push(m@) } else { seq![m@] })
    }
}

proof fn lemma_turn_step(strategy: PartitionStrategy, count: usize, next: usize, k: nat)
    requires
        count > 0,
    ensures
        strategy == PartitionStrategy::RoundRobin ==> (turn_after(strategy, count, next, k) as int) % (count as int)
            == (next + k) % (count as int),
        strategy == PartitionStrategy::RoundRobin ==> turn_after(strategy, count, next, k + 1)
            == (((turn_after(strategy, count, next, k) as int) + 1) % (count as int)) as usize,
{
    if strategy == PartitionStrategy::RoundRobin {
        let c = count as int;
        if k == 0 {
            assert(((next + 1) % c) as usize == ((next + 1) % c) as usize);
        } else {
            let t = (next + k) % c;
            assert(t % c == t) by (nonlinear_arith) requires 0 <= t < c, c > 0;
            assert((t + 1) % c == (next + k + 1) % c) by (nonlinear_arith) requires t == (next + k) % c, c > 0, next >= 0, k >= 0;
        }
    }
}

} // verus!
