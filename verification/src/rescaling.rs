//! The rescaling state of a job controller, as a step function: from the
//! current state and what the outside world reported, to the next state and
//! the action the driver has to perform next.

use std::collections::HashMap;
use std::time::Instant;
use vstd::prelude::*;
use vstd::std_specs::hash::group_hash_axioms;
use crate::scaling::{
    changes, copy_string, map_keys, mapping_for, plan_matches, ScalingOperation, ScalingPlan,
    StateRedistributionPlan,
};
use crate::clock::instant_now;
use crate::text::{parse_bounded_u64, parse_unsigned};

verus! {

broadcast use group_hash_axioms;

/// How a job changes its parallelism.
#[derive(Debug, Clone, PartialEq, Eq)]
pub enum ScalingMode {
    /// Stop the job at a final checkpoint and schedule it again.
    Traditional,
    /// Keep the job running and move its state to the new subtasks.
    Dynamic,
}

/// Where a dynamic rescaling stands.
#[derive(Debug, Clone, PartialEq, Eq)]
pub enum ScalingPhase {
    Preparing,
    Checkpointing,
    StateRedistribution,
    TaskAdjustment,
    Completed,
}

/// The state that a rescaling hands over to when it ends.
#[derive(Debug, Clone, PartialEq, Eq)]
pub enum NextState {
    Scheduling,
    Running,
}

/// Why a step failed in a way that the job controller retries.
#[derive(Debug, Clone, PartialEq, Eq)]
pub enum RetryReason {
    InitiateFinalCheckpoint,
    MonitorFinalCheckpoint,
    InitiateCheckpoint,
    MonitorCheckpoint,
    CreateRedistributionPlans,
    ExecuteStateRedistribution,
    ProcessMessage,
}

impl RetryReason {
    /// The message that goes with the retry.
    pub fn message(&self) -> (m: &'static str)
        ensures
            m@ == retry_message(*self),
    {
        match self {
            RetryReason::InitiateFinalCheckpoint => "failed to initiate final checkpoint",
            RetryReason::MonitorFinalCheckpoint => "failed while monitoring final checkpoint",
            RetryReason::InitiateCheckpoint => "failed to initiate checkpoint",
            RetryReason::MonitorCheckpoint => "failed while monitoring checkpoint",
            RetryReason::CreateRedistributionPlans => "failed to create redistribution plans",
            RetryReason::ExecuteStateRedistribution => "failed to execute state redistribution",
            RetryReason::ProcessMessage => "failed while processing message",
        }
    }
}

/// The text of each retry reason.
pub open spec fn retry_message(r: RetryReason) -> Seq<char> {
    match r {
        RetryReason::InitiateFinalCheckpoint => "failed to initiate final checkpoint"@,
        RetryReason::MonitorFinalCheckpoint => "failed while monitoring final checkpoint"@,
        RetryReason::InitiateCheckpoint => "failed to initiate checkpoint"@,
        RetryReason::MonitorCheckpoint => "failed while monitoring checkpoint"@,
        RetryReason::CreateRedistributionPlans => "failed to create redistribution plans"@,
        RetryReason::ExecuteStateRedistribution => "failed to execute state redistribution"@,
        RetryReason::ProcessMessage => "failed while processing message"@,
    }
}

/// The kinds of message a job controller receives while rescaling.
#[derive(Debug, Clone, PartialEq, Eq)]
pub enum JobMessageKind {
    /// A message for the running job, which the job controller handles.
    Running,
    /// A change of the job's configuration.
    ConfigUpdate,
    /// Anything else; it is ignored.
    Other,
}

/// What the driver reports back to the rescaling state.
#[derive(Debug)]
pub enum RescalingEvent {
    /// A new round of the state begins.
    Begin,
    /// The outcome of asking for a checkpoint: whether it was started.
    CheckpointStarted(Result<bool, String>),
    /// The outcome of asking whether the checkpoint finished, and whether the
    /// job has finished.
    CheckpointPolled { finished: Result<bool, String>, job_finished: bool },
    /// The job's current and requested parallelism per operator.
    Parallelism {
        job_id: String,
        epoch: u32,
        current: HashMap<u32, usize>,
        target: HashMap<u32, usize>,
    },
    /// The outcome of moving the keyed state.
    StateRedistributed(Result<(), String>),
    /// The task assignments were adjusted.
    TasksAdjusted,
    /// A message arrived.
    MessageReceived(JobMessageKind),
    /// The outcome of handling a running-job message.
    MessageHandled(Result<(), String>),
}

/// What the driver does next.
#[derive(Debug, Clone, PartialEq, Eq)]
pub enum RescalingAction {
    /// Ask for a checkpoint; with `then_stop` the job stops after it.
    StartCheckpoint { then_stop: bool },
    /// Ask whether the checkpoint finished.
    PollCheckpoint,
    /// Report the current and the requested parallelism.
    SupplyParallelism,
    /// Move the keyed state according to the redistribution plans.
    RedistributeState,
    /// Call `adjust_tasks` with the job model.
    AdjustTasks,
    /// Wait for the next message.
    AwaitMessage,
    /// Let the job controller handle the running-job message.
    HandleRunningMessage,
    /// Apply the configuration update (the job stops if it should not run).
    ApplyConfigUpdate,
    /// Stay in this state; the next round begins later.
    Continue,
    /// Fail this round in a way that is retried.
    Retry(RetryReason),
    /// Leave the rescaling state.
    Transition(NextState),
}

/// One task slot of a job: subtask `subtask_idx` of operator `operator_id`
/// runs on worker `worker_id`.
#[derive(Debug, Clone, Copy, PartialEq, Eq)]
pub struct TaskSlot {
    pub operator_id: u32,
    pub subtask_idx: u32,
    pub worker_id: u64,
}

/// The rescaling state of one job.
#[derive(Debug)]
pub struct Rescaling {
    pub mode: ScalingMode,
    pub phase: ScalingPhase,
    pub scaling_plan: Option<ScalingPlan>,
    pub redistribution_plans: Vec<StateRedistributionPlan>,
    pub phase_start_time: Instant,
    pub checkpoint_started: bool,
    pub checkpoint_completed: bool,
}

/// The name of the single state table that every operator is planned with.
pub open spec fn default_table() -> Seq<char> {
    seq!['d', 'e', 'f', 'a', 'u', 'l', 't']
}

/// `p` moves the state of the operator that `op` changes, for the default
/// table, at checkpoint `epoch` of job `job`.
pub open spec fn redistributes(p: StateRedistributionPlan, job: Seq<char>, epoch: u32, op: ScalingOperation) -> bool {
    &&& p.job_id@ == job
    &&& p.checkpoint_epoch == epoch
    &&& p.operator_id@ == op.id_view()
    &&& p.original_parallelism == op.from_parallelism()
    &&& p.new_parallelism == op.to_parallelism()
    &&& p.state_mapping.wf()
    &&& p.state_mapping.view().dom() == set![default_table()]
    &&& mapping_for(p.state_mapping.view()[default_table()]@, p.original_parallelism, p.new_parallelism)
}

/// The operator number that an operator identifier names; text that is not
/// a `u32` names operator 0.
pub open spec fn parse_or_zero(s: Seq<char>) -> u32 {
    match parse_unsigned(s, u32::MAX as nat) {
        Some(v) => v as u32,
        None => 0,
    }
}

/// The parallelism of each operator after the operations of a plan are
/// applied in order.
pub open spec fn parallelism_after(m: Map<u32, usize>, ops: Seq<ScalingOperation>) -> Map<u32, usize>
    decreases ops.len(),
{
    if ops.len() == 0 {
        m
    } else {
        parallelism_after(m, ops.drop_last()).insert(
            parse_or_zero(ops.last().id_view()),
            ops.last().to_parallelism() as usize,
        )
    }
}

/// The worker of the first slot in `current` that holds subtask `s` of `op`.
pub open spec fn first_worker(current: Seq<TaskSlot>, op: u32, s: u32) -> Option<u64>
    decreases current.len(),
{
    if current.len() == 0 {
        None
    } else if current[0].operator_id == op && current[0].subtask_idx == s {
        Some(current[0].worker_id)
    } else {
        first_worker(current.drop_first(), op, s)
    }
}

/// Where subtask `s` of `op` goes: where it ran, or else to the fallback
/// worker if there is one.
pub open spec fn slot_worker(current: Seq<TaskSlot>, op: u32, s: u32, fallback: Option<u64>) -> Option<u64> {
    match first_worker(current, op, s) {
        Some(w) => Some(w),
        None => fallback,
    }
}

/// `out` places every subtask that `parallelism` asks for and that has a
/// worker, once, on that worker, and nothing else.
pub open spec fn placement(
    current: Seq<TaskSlot>,
    parallelism: Map<u32, usize>,
    fallback: Option<u64>,
    out: Seq<TaskSlot>,
) -> bool {
    &&& forall|i: int| #![trigger out[i]] 0 <= i < out.len() ==> {
        &&& parallelism.contains_key(out[i].operator_id)
        &&& (out[i].subtask_idx as int) < parallelism[out[i].operator_id] as int
        &&& slot_worker(current, out[i].operator_id, out[i].subtask_idx, fallback) == Some(out[i].worker_id)
    }
    &&& forall|op: u32, s: u32| parallelism.contains_key(op) && (s as int) < parallelism[op] as int
        && #[trigger] slot_worker(current, op, s, fallback) is Some
        ==> exists|i: int| 0 <= i < out.len() && #[trigger] out[i].operator_id == op && out[i].subtask_idx == s
    &&& forall|i: int, j: int| 0 <= i < j < out.len() ==>
        !(#[trigger] out[i].operator_id == #[trigger] out[j].operator_id && out[i].subtask_idx == out[j].subtask_idx)
}

/// Looks up where subtask `s` of operator `op` ran.
fn find_worker(current: &Vec<TaskSlot>, op: u32, s: u32) -> (w: Option<u64>)
    ensures
        w == first_worker(current@, op, s),
{
    let mut i: usize = 0;
    assert(current@.subrange(0, current@.len() as int) =~= current@);
    while i < current.len()
        invariant
            0 <= i <= current@.len(),
            first_worker(current@, op, s) == first_worker(current@.subrange(i as int, current@.len() as int), op, s),
        decreases current.len() - i,
    {
        let ghost rest = current@.subrange(i as int, current@.len() as int);
        assert(rest.drop_first() =~= current@.subrange(i as int + 1, current@.len() as int));
        assert(rest[0] == current@[i as int]);
        if current[i].operator_id == op && current[i].subtask_idx == s {
            return Some(current[i].worker_id);
        }
        i = i + 1;
    }
    None
}

/// Appends the slots of operator `op` with `p` subtasks, in subtask order.
fn place_operator(current: &Vec<TaskSlot>, op: u32, p: usize, fallback: Option<u64>, out: &mut Vec<TaskSlot>)
    requires
        p <= u32::MAX,
    ensures
        final(out)@.len() >= old(out)@.len(),
        final(out)@.subrange(0, old(out)@.len() as int) == old(out)@,
        forall|i: int| #![trigger final(out)@[i]] old(out)@.len() <= i < final(out)@.len() ==> {
            &&& final(out)@[i].operator_id == op
            &&& (final(out)@[i].subtask_idx as int) < p as int
            &&& slot_worker(current@, op, final(out)@[i].subtask_idx, fallback) == Some(final(out)@[i].worker_id)
        },
        forall|s: u32| (s as int) < p as int && #[trigger] slot_worker(current@, op, s, fallback) is Some ==>
            exists|i: int| old(out)@.len() <= i < final(out)@.len() && #[trigger] final(out)@[i].subtask_idx == s,
        forall|i: int, j: int| old(out)@.len() <= i < j < final(out)@.len() ==>
            (#[trigger] final(out)@[i].subtask_idx) < (#[trigger] final(out)@[j].subtask_idx),
{
    let ghost start = out@;
    let mut s: usize = 0;
    while s < p
        invariant
            p <= u32::MAX,
            0 <= s <= p,
            out@.len() >= start.len(),
            out@.subrange(0, start.len() as int) == start,
            forall|i: int| #![trigger out@[i]] start.len() <= i < out@.len() ==> {
                &&& out@[i].operator_id == op
                &&& (out@[i].subtask_idx as int) < s as int
                &&& slot_worker(current@, op, out@[i].subtask_idx, fallback) == Some(out@[i].worker_id)
            },
            forall|t: u32| (t as int) < s as int && #[trigger] slot_worker(current@, op, t, fallback) is Some ==>
                exists|i: int| start.len() <= i < out@.len() && #[trigger] out@[i].subtask_idx == t,
            forall|i: int, j: int| start.len() <= i < j < out@.len() ==>
                (#[trigger] out@[i].subtask_idx) < (#[trigger] out@[j].subtask_idx),
        decreases p - s,
    {
        let idx = s as u32;
        let found = find_worker(current, op, idx);
        let worker = match found {
            Some(w) => Some(w),
            None => fallback,
        };
        let ghost before = out@;
        match worker {
            Some(w) => {
                out.push(TaskSlot { operator_id: op, subtask_idx: idx, worker_id: w });
                proof {
                    assert(out@.subrange(0, start.len() as int) =~= before.subrange(0, start.len() as int));
                    assert(out@[out@.len() - 1].subtask_idx == idx);
                    assert forall|t: u32| (t as int) < s as int + 1 && #[trigger] slot_worker(current@, op, t, fallback) is Some implies
                        exists|i: int| start.len() <= i < out@.len() && #[trigger] out@[i].subtask_idx == t by {
                        if t == idx {
                            assert(out@[out@.len() - 1].subtask_idx == t);
                        } else {
                            let i = choose|i: int| start.len() <= i < before.len() && #[trigger] before[i].subtask_idx == t;
                            assert(out@[i] == before[i]);
                        }
                    }
                }
            },
            None => {},
        }
        s = s + 1;
    }
}

impl Rescaling {
    /// A rescaling that has not started: preparing, nothing planned, no
    /// checkpoint asked for.
    pub fn new(mode: ScalingMode) -> (r: Self)
        ensures
            r.mode == mode,
            r.phase == ScalingPhase::Preparing,
            r.scaling_plan is None,
            r.redistribution_plans@.len() == 0,
            !r.checkpoint_started,
            !r.checkpoint_completed,
    {
        Rescaling {
            mode,
            phase: ScalingPhase::Preparing,
            scaling_plan: None,
            redistribution_plans: Vec::new(),
            phase_start_time: instant_now(),
            checkpoint_started: false,
            checkpoint_completed: false,
        }
    }

    /// A dynamic rescaling past preparation has a plan.
    pub open spec fn wf(&self) -> bool {
        self.mode == ScalingMode::Dynamic && self.phase != ScalingPhase::Preparing ==> self.scaling_plan is Some
    }

    /// Plans the changes from the current to the requested parallelism.
    /// Fails, and changes nothing, when no operator changes.
    pub fn create_scaling_plan(
        &mut self,
        job_id: String,
        epoch: u32,
        current: &HashMap<u32, usize>,
        target: &HashMap<u32, usize>,
    ) -> (r: Result<(), String>)
        ensures
            r is Ok <==> exists|node: u32| #[trigger] changes(current@, target@, node),
            r is Ok ==> {
                &&& final(self).scaling_plan matches Some(plan)
                &&& plan.job_id@ == job_id@
                &&& plan.epoch == epoch
                &&& plan_matches(plan.operations@, current@, target@)
            },
            r is Err ==> final(self).scaling_plan == old(self).scaling_plan,
            r matches Err(e) ==> e@ == "No scaling operations needed"@,
            final(self).mode == old(self).mode,
            final(self).phase == old(self).phase,
            final(self).redistribution_plans == old(self).redistribution_plans,
            final(self).checkpoint_started == old(self).checkpoint_started,
            final(self).checkpoint_completed == old(self).checkpoint_completed,
            final(self).phase_start_time == old(self).phase_start_time,
    {
        let plan = ScalingPlan::new(job_id, epoch, current, target);
        if plan.has_operations() {
            proof {
                assert(crate::scaling::is_change_of(plan.operations@[0], current@, target@));
            }
            self.scaling_plan = Some(plan);
            Ok(())
        } else {
            proof {
                assert forall|node: u32| !(#[trigger] changes(current@, target@, node)) by {
                    if changes(current@, target@, node) {
                        assert(crate::scaling::covers(plan.operations@, current@, target@, node));
                    }
                }
            }
            Err("No scaling operations needed".to_owned())
        }
    }

    /// Plans, for each operation of the scaling plan in order, how the state
    /// of its operator's default table moves.
    pub fn create_redistribution_plans(&mut self) -> (r: Result<(), String>)
        requires
            old(self).scaling_plan is Some,
        ensures
            r is Ok,
            final(self).mode == old(self).mode,
            final(self).phase == old(self).phase,
            final(self).scaling_plan == old(self).scaling_plan,
            final(self).checkpoint_started == old(self).checkpoint_started,
            final(self).checkpoint_completed == old(self).checkpoint_completed,
            final(self).phase_start_time == old(self).phase_start_time,
            ({
                let plan = old(self).scaling_plan->0;
                let n = old(self).redistribution_plans@.len();
                &&& final(self).redistribution_plans@.len() == n + plan.operations@.len()
                &&& final(self).redistribution_plans@.subrange(0, n as int) == old(self).redistribution_plans@
                &&& forall|i: int| 0 <= i < plan.operations@.len() ==> redistributes(
                    #[trigger] final(self).redistribution_plans@[n + i], plan.job_id@, plan.epoch, plan.operations@[i])
            }),
    {
        let ghost n = self.redistribution_plans@.len();
        let ghost plan_view = self.scaling_plan->0;
        let mut created: Vec<StateRedistributionPlan> = Vec::new();
        match &self.scaling_plan {
            Some(plan) => {
                let mut k: usize = 0;
                while k < plan.operations.len()
                    invariant
                        0 <= k <= plan.operations@.len(),
                        created@.len() == k,
                        forall|i: int| 0 <= i < k ==> redistributes(
                            #[trigger] created@[i], plan.job_id@, plan.epoch, plan.operations@[i]),
                    decreases plan.operations.len() - k,
                {
                    let op = &plan.operations[k];
                    let (operator_id, from_p, to_p) = match op {
                        ScalingOperation::ScaleOut { operator_id, original_parallelism, new_parallelism } =>
                            (operator_id, *original_parallelism, *new_parallelism),
                        ScalingOperation::ScaleIn { operator_id, original_parallelism, new_parallelism } =>
                            (operator_id, *original_parallelism, *new_parallelism),
                    };
                    let mut p = StateRedistributionPlan::new(
                        copy_string(&plan.job_id),
                        plan.epoch,
                        copy_string(operator_id),
                        from_p,
                        to_p,
                    );
                    let table = "default".to_owned();
                    proof {
                        reveal_strlit("default");
                    }
                    let mut names: Vec<String> = Vec::new();
                    names.push(table);
                    let _ = p.compute_state_mapping(names.as_slice());
                    proof {
                        assert(names@[0]@ == default_table());
                        assert(p.state_mapping.view().dom() =~= set![default_table()]) by {
                            assert forall|t: Seq<char>| p.state_mapping.view().dom().contains(t) <==> t == default_table() by {
                                if t == default_table() {
                                    assert(names@[0]@ == t);
                                }
                            }
                        }
                        assert(mapping_for(p.state_mapping.view()[names@[0]@]@, p.original_parallelism, p.new_parallelism));
                    }
                    created.push(p);
                    k = k + 1;
                }
            },
            None => {},
        }
        let ghost old_plans = self.redistribution_plans@;
        let ghost made = created@;
        self.redistribution_plans.append(&mut created);
        proof {
            assert(self.redistribution_plans@.subrange(0, n as int) =~= old_plans);
            assert forall|i: int| 0 <= i < plan_view.operations@.len() implies redistributes(
                #[trigger] self.redistribution_plans@[n + i], plan_view.job_id@, plan_view.epoch, plan_view.operations@[i]) by {
                assert(self.redistribution_plans@[n + i] == made[i]);
            }
        }
        Ok(())
    }

    /// The parts of the state that a step may change, all equal.
    pub open spec fn same_progress(&self, other: &Self) -> bool {
        &&& self.phase == other.phase
        &&& self.scaling_plan == other.scaling_plan
        &&& self.redistribution_plans == other.redistribution_plans
        &&& self.phase_start_time == other.phase_start_time
        &&& self.checkpoint_started == other.checkpoint_started
        &&& self.checkpoint_completed == other.checkpoint_completed
    }

    /// Applies the scaling plan to the job's parallelism, then places every
    /// subtask: where it ran before, or else on the fallback worker, if any.
    /// The rescaling is then complete.
    pub fn adjust_tasks(
        &mut self,
        parallelism: &mut HashMap<u32, usize>,
        current: &Vec<TaskSlot>,
        fallback_worker: Option<u64>,
    ) -> (out: Vec<TaskSlot>)
        requires
            old(self).scaling_plan is Some,
            forall|k: u32| #[trigger] old(parallelism)@.contains_key(k) ==> old(parallelism)@[k] <= u32::MAX,
        ensures
            final(parallelism)@ == parallelism_after(old(parallelism)@, old(self).scaling_plan->0.operations@),
            placement(current@, final(parallelism)@, fallback_worker, out@),
            final(self).phase == ScalingPhase::Completed,
            final(self).mode == old(self).mode,
            final(self).scaling_plan == old(self).scaling_plan,
            final(self).redistribution_plans == old(self).redistribution_plans,
            final(self).checkpoint_started == old(self).checkpoint_started,
            final(self).checkpoint_completed == old(self).checkpoint_completed,
    {
        let ghost start = parallelism@;
        match &self.scaling_plan {
            Some(plan) => {
                let ghost ops = plan.operations@;
                let mut k: usize = 0;
                while k < plan.operations.len()
                    invariant
                        ops == plan.operations@,
                        0 <= k <= ops.len(),
                        parallelism@ == parallelism_after(start, ops.subrange(0, k as int)),
                        forall|x: u32| #[trigger] parallelism@.contains_key(x) ==> parallelism@[x] <= u32::MAX,
                    decreases plan.operations.len() - k,
                {
                    let op = &plan.operations[k];
                    let id = op.operator_id();
                    let node: u32 = match parse_bounded_u64(id.as_str(), 0xffff_ffff) {
                        Some(v) => v as u32,
                        None => 0,
                    };
                    let new_p = match op {
                        ScalingOperation::ScaleOut { new_parallelism, .. } => *new_parallelism,
                        ScalingOperation::ScaleIn { new_parallelism, .. } => *new_parallelism,
                    };
                    parallelism.insert(node, new_p as usize);
                    proof {
                        let pre = ops.subrange(0, k as int + 1);
                        assert(pre.drop_last() =~= ops.subrange(0, k as int));
                        assert(pre.last() == ops[k as int]);
                    }
                    k = k + 1;
                }
                proof {
                    assert(ops.subrange(0, ops.len() as int) =~= ops);
                }
            },
            None => {},
        }
        let keys = map_keys(parallelism);
        let mut out: Vec<TaskSlot> = Vec::new();
        let mut k: usize = 0;
        while k < keys.len()
            invariant
                0 <= k <= keys@.len(),
                keys@.no_duplicates(),
                forall|j: int| 0 <= j < keys@.len() ==> #[trigger] parallelism@.contains_key(keys@[j]),
                forall|x: u32| #[trigger] parallelism@.contains_key(x) ==> parallelism@[x] <= u32::MAX,
                forall|i: int| #![trigger out@[i]] 0 <= i < out@.len() ==> {
                    &&& keys@.subrange(0, k as int).contains(out@[i].operator_id)
                    &&& parallelism@.contains_key(out@[i].operator_id)
                    &&& (out@[i].subtask_idx as int) < parallelism@[out@[i].operator_id] as int
                    &&& slot_worker(current@, out@[i].operator_id, out@[i].subtask_idx, fallback_worker)
                        == Some(out@[i].worker_id)
                },
                forall|j: int, s: u32| 0 <= j < k && (s as int) < parallelism@[keys@[j]] as int
                    && #[trigger] slot_worker(current@, keys@[j], s, fallback_worker) is Some
                    ==> exists|i: int| 0 <= i < out@.len() && #[trigger] out@[i].operator_id == keys@[j]
                        && out@[i].subtask_idx == s,
                forall|i: int, j: int| 0 <= i < j < out@.len() ==>
                    !(#[trigger] out@[i].operator_id == #[trigger] out@[j].operator_id
                        && out@[i].subtask_idx == out@[j].subtask_idx),
            decreases keys.len() - k,
        {
            let op = keys[k];
            let p = *parallelism.get(&op).unwrap();
            let ghost before = out@;
            place_operator(current, op, p, fallback_worker, &mut out);
            proof {
                assert forall|i: int| 0 <= i < before.len() implies #[trigger] out@[i] == before[i] by {
                    assert(out@.subrange(0, before.len() as int)[i] == out@[i]);
                }
                assert forall|i: int| #![trigger out@[i]] 0 <= i < out@.len() implies
                    keys@.subrange(0, k as int + 1).contains(out@[i].operator_id) by {
                    if i < before.len() {
                        let q = choose|q: int| 0 <= q < k && keys@.subrange(0, k as int)[q] == before[i].operator_id;
                        assert(keys@.subrange(0, k as int + 1)[q] == out@[i].operator_id);
                    } else {
                        assert(keys@.subrange(0, k as int + 1)[k as int] == out@[i].operator_id);
                    }
                }
                assert forall|j: int, s: u32| 0 <= j < k + 1 && (s as int) < parallelism@[keys@[j]] as int
                    && #[trigger] slot_worker(current@, keys@[j], s, fallback_worker) is Some
                    implies exists|i: int| 0 <= i < out@.len() && #[trigger] out@[i].operator_id == keys@[j]
                        && out@[i].subtask_idx == s by {
                    if j == k {
                        let i = choose|i: int| before.len() <= i < out@.len() && #[trigger] out@[i].subtask_idx == s;
                        assert(out@[i].operator_id == keys@[j]);
                    } else {
                        let i = choose|i: int| 0 <= i < before.len() && #[trigger] before[i].operator_id == keys@[j]
                            && before[i].subtask_idx == s;
                        assert(out@[i] == before[i]);
                    }
                }
                assert forall|i: int, j: int| 0 <= i < j < out@.len() implies
                    !(#[trigger] out@[i].operator_id == #[trigger] out@[j].operator_id
                        && out@[i].subtask_idx == out@[j].subtask_idx) by {
                    if j < before.len() {
                        assert(out@[i] == before[i] && out@[j] == before[j]);
                    } else if i < before.len() {
                        assert(out@[i] == before[i]);
                        let q = choose|q: int| 0 <= q < k && keys@.subrange(0, k as int)[q] == before[i].operator_id;
                        assert(keys@[q] == before[i].operator_id);
                        assert(out@[j].operator_id == keys@[k as int]);
                    } else {
                        assert(out@[i].subtask_idx < out@[j].subtask_idx);
                    }
                }
            }
            k = k + 1;
        }
        proof {
            assert forall|op: u32, s: u32| parallelism@.contains_key(op) && (s as int) < parallelism@[op] as int
                && #[trigger] slot_worker(current@, op, s, fallback_worker) is Some
                implies exists|i: int| 0 <= i < out@.len() && #[trigger] out@[i].operator_id == op
                    && out@[i].subtask_idx == s by {
                assert(keys@.contains(op));
                let j = choose|j: int| 0 <= j < keys@.len() && keys@[j] == op;
                assert(slot_worker(current@, keys@[j], s, fallback_worker) is Some);
            }
        }
        self.phase = ScalingPhase::Completed;
        self.phase_start_time = instant_now();
        out
    }

    /// Whether `event` is one that the driver can report in this state: the
    /// checkpoint outcomes only while a checkpoint is being taken, the
    /// parallelism only while preparing, the state transfer only while
    /// redistributing.
    pub open spec fn accepts(&self, event: RescalingEvent) -> bool {
        match event {
            RescalingEvent::CheckpointStarted(_) | RescalingEvent::CheckpointPolled { .. } =>
                self.mode == ScalingMode::Traditional || self.phase == ScalingPhase::Checkpointing,
            RescalingEvent::Parallelism { .. } =>
                self.mode == ScalingMode::Dynamic && self.phase == ScalingPhase::Preparing,
            RescalingEvent::StateRedistributed(_) =>
                self.mode == ScalingMode::Dynamic && self.phase == ScalingPhase::StateRedistribution,
            _ => true,
        }
    }

    /// Tells whether `event` is one that `step` accepts now.
    pub fn accepts_event(&self, event: &RescalingEvent) -> (b: bool)
        ensures
            b == self.accepts(*event),
    {
        match event {
            RescalingEvent::CheckpointStarted(_) | RescalingEvent::CheckpointPolled { .. } =>
                matches!(self.mode, ScalingMode::Traditional) || matches!(self.phase, ScalingPhase::Checkpointing),
            RescalingEvent::Parallelism { .. } =>
                matches!(self.mode, ScalingMode::Dynamic) && matches!(self.phase, ScalingPhase::Preparing),
            RescalingEvent::StateRedistributed(_) =>
                matches!(self.mode, ScalingMode::Dynamic) && matches!(self.phase, ScalingPhase::StateRedistribution),
            _ => true,
        }
    }

    /// What a round of the state starts with.
    pub open spec fn begin_action(&self) -> RescalingAction {
        match self.mode {
            ScalingMode::Traditional => if !self.checkpoint_started {
                RescalingAction::StartCheckpoint { then_stop: true }
            } else {
                RescalingAction::PollCheckpoint
            },
            ScalingMode::Dynamic => match self.phase {
                ScalingPhase::Preparing => RescalingAction::SupplyParallelism,
                ScalingPhase::Checkpointing => if !self.checkpoint_started {
                    RescalingAction::StartCheckpoint { then_stop: false }
                } else {
                    RescalingAction::PollCheckpoint
                },
                ScalingPhase::StateRedistribution => RescalingAction::RedistributeState,
                ScalingPhase::TaskAdjustment => RescalingAction::AdjustTasks,
                ScalingPhase::Completed => RescalingAction::Transition(NextState::Scheduling),
            },
        }
    }

    /// One step of the rescaling state: from `s0`, on `event`, to `s1`,
    /// with `action` to perform next.
    /// A step on any event: an awaited one as `step_spec` says; any other
    /// leaves the state as it is and waits for the next message.
    pub open spec fn any_step(s0: Rescaling, event: RescalingEvent, s1: Rescaling, action: RescalingAction) -> bool {
        if s0.accepts(event) {
            Rescaling::step_spec(s0, event, s1, action)
        } else {
            s1 == s0 && action == RescalingAction::AwaitMessage
        }
    }

    pub open spec fn step_spec(s0: Rescaling, event: RescalingEvent, s1: Rescaling, action: RescalingAction) -> bool {
        match event {
            RescalingEvent::Begin => s1.same_progress(&s0) && action == s0.begin_action(),
            RescalingEvent::CheckpointStarted(r) => match r {
                Ok(started) => {
                    &&& s1.checkpoint_started == started
                    &&& s1.phase == s0.phase
                    &&& s1.scaling_plan == s0.scaling_plan
                    &&& s1.redistribution_plans == s0.redistribution_plans
                    &&& s1.checkpoint_completed == s0.checkpoint_completed
                    &&& s1.phase_start_time == s0.phase_start_time
                    &&& action == RescalingAction::PollCheckpoint
                },
                Err(_) => s1.same_progress(&s0) && action == RescalingAction::Retry(
                    if s0.mode == ScalingMode::Traditional { RetryReason::InitiateFinalCheckpoint }
                    else { RetryReason::InitiateCheckpoint }),
            },
            RescalingEvent::CheckpointPolled { finished, job_finished } => match finished {
                Err(_) => s1.same_progress(&s0) && action == RescalingAction::Retry(
                    if s0.mode == ScalingMode::Traditional { RetryReason::MonitorFinalCheckpoint }
                    else { RetryReason::MonitorCheckpoint }),
                Ok(done) => if s0.mode == ScalingMode::Traditional {
                    &&& s1.same_progress(&s0)
                    &&& action == if done && job_finished && s0.checkpoint_started {
                        RescalingAction::Transition(NextState::Scheduling)
                    } else {
                        RescalingAction::AwaitMessage
                    }
                } else if done && s0.checkpoint_started {
                    let plan = s0.scaling_plan->0;
                    let n = s0.redistribution_plans@.len();
                    &&& s1.phase == ScalingPhase::StateRedistribution
                    &&& s1.checkpoint_completed
                    &&& s1.checkpoint_started == s0.checkpoint_started
                    &&& s1.scaling_plan == s0.scaling_plan
                    &&& s1.redistribution_plans@.len() == n + plan.operations@.len()
                    &&& s1.redistribution_plans@.subrange(0, n as int) == s0.redistribution_plans@
                    &&& forall|i: int| 0 <= i < plan.operations@.len() ==> redistributes(
                        #[trigger] s1.redistribution_plans@[n + i], plan.job_id@, plan.epoch, plan.operations@[i])
                    &&& action == RescalingAction::AwaitMessage
                } else {
                    s1.same_progress(&s0) && action == RescalingAction::AwaitMessage
                },
            },
            RescalingEvent::Parallelism { job_id, epoch, current, target } =>
                if exists|node: u32| #[trigger] changes(current@, target@, node) {
                    &&& s1.scaling_plan matches Some(plan)
                    &&& plan.job_id@ == job_id@
                    &&& plan.epoch == epoch
                    &&& plan_matches(plan.operations@, current@, target@)
                    &&& s1.phase == ScalingPhase::Checkpointing
                    &&& s1.redistribution_plans == s0.redistribution_plans
                    &&& s1.checkpoint_started == s0.checkpoint_started
                    &&& s1.checkpoint_completed == s0.checkpoint_completed
                    &&& action == RescalingAction::AwaitMessage
                } else {
                    s1.same_progress(&s0) && action == RescalingAction::Transition(NextState::Running)
                },
            RescalingEvent::StateRedistributed(r) => match r {
                Ok(_) => {
                    &&& s1.phase == ScalingPhase::TaskAdjustment
                    &&& s1.scaling_plan == s0.scaling_plan
                    &&& s1.redistribution_plans == s0.redistribution_plans
                    &&& s1.checkpoint_started == s0.checkpoint_started
                    &&& s1.checkpoint_completed == s0.checkpoint_completed
                    &&& action == RescalingAction::AwaitMessage
                },
                Err(_) => s1.same_progress(&s0)
                    && action == RescalingAction::Retry(RetryReason::ExecuteStateRedistribution),
            },
            RescalingEvent::TasksAdjusted =>
                s1.same_progress(&s0) && action == RescalingAction::AwaitMessage,
            RescalingEvent::MessageReceived(kind) => s1.same_progress(&s0) && action == match kind {
                JobMessageKind::Running => RescalingAction::HandleRunningMessage,
                JobMessageKind::ConfigUpdate => RescalingAction::ApplyConfigUpdate,
                JobMessageKind::Other => RescalingAction::Continue,
            },
            RescalingEvent::MessageHandled(r) => s1.same_progress(&s0) && action == match r {
                Ok(_) => RescalingAction::Continue,
                Err(_) => RescalingAction::Retry(RetryReason::ProcessMessage),
            },
        }
    }

    /// Takes in what the driver reports and says what it does next.
    ///
    /// A traditional rescaling takes a final checkpoint and hands over to
    /// scheduling once the checkpoint and the job have finished. A dynamic
    /// rescaling plans the changes (or returns to running when nothing
    /// changes), takes a checkpoint and plans the state transfer, moves the
    /// state, adjusts the tasks and then hands over to scheduling. Failures
    /// of the outside work are retried; between steps the state waits for
    /// messages. An event that the state does not await now changes
    /// nothing, and the state waits for the next message.
    pub fn step(&mut self, event: RescalingEvent) -> (action: RescalingAction)
        requires
            old(self).wf(),
        ensures
            final(self).wf(),
            final(self).mode == old(self).mode,
            Rescaling::any_step(*old(self), event, *final(self), action),
    {
        if !self.accepts_event(&event) {
            return RescalingAction::AwaitMessage;
        }
        let traditional = matches!(self.mode, ScalingMode::Traditional);
        match event {
            RescalingEvent::Begin => {
                if traditional {
                    if !self.checkpoint_started {
                        RescalingAction::StartCheckpoint { then_stop: true }
                    } else {
                        RescalingAction::PollCheckpoint
                    }
                } else {
                    match self.phase {
                        ScalingPhase::Preparing => RescalingAction::SupplyParallelism,
                        ScalingPhase::Checkpointing => if !self.checkpoint_started {
                            RescalingAction::StartCheckpoint { then_stop: false }
                        } else {
                            RescalingAction::PollCheckpoint
                        },
                        ScalingPhase::StateRedistribution => RescalingAction::RedistributeState,
                        ScalingPhase::TaskAdjustment => RescalingAction::AdjustTasks,
                        ScalingPhase::Completed => RescalingAction::Transition(NextState::Scheduling),
                    }
                }
            },
            RescalingEvent::CheckpointStarted(r) => match r {
                Ok(started) => {
                    self.checkpoint_started = started;
                    RescalingAction::PollCheckpoint
                },
                Err(_) => if traditional {
                    RescalingAction::Retry(RetryReason::InitiateFinalCheckpoint)
                } else {
                    RescalingAction::Retry(RetryReason::InitiateCheckpoint)
                },
            },
            RescalingEvent::CheckpointPolled { finished, job_finished } => match finished {
                Err(_) => if traditional {
                    RescalingAction::Retry(RetryReason::MonitorFinalCheckpoint)
                } else {
                    RescalingAction::Retry(RetryReason::MonitorCheckpoint)
                },
                Ok(done) => if traditional {
                    if done && job_finished && self.checkpoint_started {
                        RescalingAction::Transition(NextState::Scheduling)
                    } else {
                        RescalingAction::AwaitMessage
                    }
                } else if done && self.checkpoint_started {
                    self.checkpoint_completed = true;
                    self.phase = ScalingPhase::StateRedistribution;
                    self.phase_start_time = instant_now();
                    match self.create_redistribution_plans() {
                        Ok(()) => RescalingAction::AwaitMessage,
                        Err(_) => RescalingAction::Retry(RetryReason::CreateRedistributionPlans),
                    }
                } else {
                    RescalingAction::AwaitMessage
                },
            },
            RescalingEvent::Parallelism { job_id, epoch, current, target } => {
                match self.create_scaling_plan(job_id, epoch, &current, &target) {
                    Ok(()) => {
                        self.phase = ScalingPhase::Checkpointing;
                        self.phase_start_time = instant_now();
                        RescalingAction::AwaitMessage
                    },
                    Err(_) => RescalingAction::Transition(NextState::Running),
                }
            },
            RescalingEvent::StateRedistributed(r) => match r {
                Ok(()) => {
                    self.phase = ScalingPhase::TaskAdjustment;
                    self.phase_start_time = instant_now();
                    RescalingAction::AwaitMessage
                },
                Err(_) => RescalingAction::Retry(RetryReason::ExecuteStateRedistribution),
            },
            RescalingEvent::TasksAdjusted => RescalingAction::AwaitMessage,
            RescalingEvent::MessageReceived(kind) => match kind {
                JobMessageKind::Running => RescalingAction::HandleRunningMessage,
                JobMessageKind::ConfigUpdate => RescalingAction::ApplyConfigUpdate,
                JobMessageKind::Other => RescalingAction::Continue,
            },
            RescalingEvent::MessageHandled(r) => match r {
                Ok(()) => RescalingAction::Continue,
                Err(_) => RescalingAction::Retry(RetryReason::ProcessMessage),
            },
        }
    }
}

/// How far a dynamic rescaling has come.
pub open spec fn phase_rank(p: ScalingPhase) -> int {
    match p {
        ScalingPhase::Preparing => 0,
        ScalingPhase::Checkpointing => 1,
        ScalingPhase::StateRedistribution => 2,
        ScalingPhase::TaskAdjustment => 3,
        ScalingPhase::Completed => 4,
    }
}

/// A rescaling never goes back to an earlier phase, a step moves it on by
/// at most one phase, and a completed dynamic rescaling hands over to
/// scheduling when it runs again.
pub proof fn lemma_phases_only_advance(s0: Rescaling, event: RescalingEvent, s1: Rescaling, action: RescalingAction)
    requires
        s0.wf(),
        Rescaling::any_step(s0, event, s1, action),
    ensures
        phase_rank(s1.phase) >= phase_rank(s0.phase),
        phase_rank(s1.phase) <= phase_rank(s0.phase) + 1,
        s0.mode == ScalingMode::Dynamic && s0.phase == ScalingPhase::Completed && event is Begin
            ==> action == RescalingAction::Transition(NextState::Scheduling),
{
}

/// A traditional rescaling only ever hands over to scheduling, and never
/// plans, moves state or adjusts tasks.
pub proof fn lemma_traditional_rescaling(s0: Rescaling, event: RescalingEvent, s1: Rescaling, action: RescalingAction)
    requires
        s0.wf(),
        s0.mode == ScalingMode::Traditional,
        Rescaling::any_step(s0, event, s1, action),
    ensures
        action is Transition ==> action == RescalingAction::Transition(NextState::Scheduling),
        action != RescalingAction::SupplyParallelism,
        action != RescalingAction::RedistributeState,
        action != RescalingAction::AdjustTasks,
        s1.phase == s0.phase,
        s1.scaling_plan == s0.scaling_plan,
        s1.redistribution_plans == s0.redistribution_plans,
{
}

/// State is moved only once the checkpoint that was asked for has
/// finished; and the state returns to running only when nothing changes.
pub proof fn lemma_state_moves_after_checkpoint(s0: Rescaling, event: RescalingEvent, s1: Rescaling, action: RescalingAction)
    requires
        s0.wf(),
        Rescaling::any_step(s0, event, s1, action),
    ensures
        s0.phase != ScalingPhase::StateRedistribution && s1.phase == ScalingPhase::StateRedistribution ==>
            s1.checkpoint_started && s1.checkpoint_completed,
        action == RescalingAction::Transition(NextState::Running) ==> match event {
            RescalingEvent::Parallelism { current, target, .. } =>
                !exists|node: u32| #[trigger] changes(current@, target@, node),
            _ => false,
        },
{
}

proof fn lemma_after_lookup(m: Map<u32, usize>, ops: Seq<ScalingOperation>, node: u32, i: int)
    requires
        0 <= i < ops.len(),
        parse_or_zero(ops[i].id_view()) == node,
        forall|j: int| 0 <= j < ops.len() && j != i ==> parse_or_zero(#[trigger] ops[j].id_view()) != node,
    ensures
        parallelism_after(m, ops).contains_key(node),
        parallelism_after(m, ops)[node] == ops[i].to_parallelism() as usize,
    decreases ops.len(),
{
    if i < ops.len() - 1 {
        let rest = ops.drop_last();
        assert forall|j: int| 0 <= j < rest.len() && j != i implies parse_or_zero(#[trigger] rest[j].id_view()) != node by {
            assert(rest[j] == ops[j]);
        }
        lemma_after_lookup(m, rest, node, i);
        assert(parse_or_zero(ops.last().id_view()) != node);
    }
}

/// After the tasks are adjusted, every operator whose parallelism the plan
/// changes has the requested parallelism (when it fits a `u32`, as a plan
/// records it).
pub proof fn lemma_adjusted_parallelism_is_requested(
    m: Map<u32, usize>,
    ops: Seq<ScalingOperation>,
    current: Map<u32, usize>,
    target: Map<u32, usize>,
    node: u32,
)
    requires
        plan_matches(ops, current, target),
        changes(current, target, node),
        target[node] <= u32::MAX,
    ensures
        parallelism_after(m, ops)[node] == target[node],
{
    assert(crate::scaling::covers(ops, current, target, node));
    let i = choose|i: int| 0 <= i < ops.len() && #[trigger] ops[i].describes(node, current[node], target[node]);
    crate::text::lemma_parse_decimal(node as nat, u32::MAX as nat);
    assert forall|j: int| 0 <= j < ops.len() && j != i implies parse_or_zero(#[trigger] ops[j].id_view()) != node by {
        assert(crate::scaling::is_change_of(ops[j], current, target));
        let other = choose|x: u32| #[trigger] changes(current, target, x) && ops[j].describes(x, current[x], target[x]);
        crate::text::lemma_parse_decimal(other as nat, u32::MAX as nat);
        if other == node {
            if i < j {
                assert(ops[i].id_view() != ops[j].id_view());
            } else {
                assert(ops[j].id_view() != ops[i].id_view());
            }
        }
    }
    lemma_after_lookup(m, ops, node, i);
}

} // verus!
