//! Plans for changing the parallelism of a running job and for moving
//! keyed state between the old and the new subtasks.

use std::collections::HashMap;
use std::time::SystemTime;
use vstd::prelude::*;
use vstd::std_specs::hash::group_hash_axioms;
use crate::strmap::{StringMap, StringSet};
use crate::text::{append_chars, decimal, string_from_chars, u64_to_decimal};

verus! {

broadcast use group_hash_axioms;

#[verifier::external_type_specification]
#[verifier::external_body]
pub struct ExSystemTime(SystemTime);

/// `SystemTime` is `Copy`, so its clone is the same instant.
pub assume_specification[ <SystemTime as Clone>::clone ](t: &SystemTime) -> (r: SystemTime)
    ensures
        r == *t,
;

/// Reads the wall clock.
/// Calls `SystemTime::now`; nothing is claimed of the result.
#[verifier::external_body]
fn system_now() -> (t: SystemTime) {
    SystemTime::now()
}

/// One change of parallelism for one operator.
#[derive(Debug, Clone, PartialEq, Eq)]
pub enum ScalingOperation {
    /// More subtasks than before.
    ScaleOut { operator_id: String, original_parallelism: u32, new_parallelism: u32 },
    /// Fewer subtasks than before.
    ScaleIn { operator_id: String, original_parallelism: u32, new_parallelism: u32 },
}

impl ScalingOperation {
    /// The operator's identifier.
    pub open spec fn id_view(&self) -> Seq<char> {
        match self {
            ScalingOperation::ScaleOut { operator_id, .. } => operator_id@,
            ScalingOperation::ScaleIn { operator_id, .. } => operator_id@,
        }
    }

    /// Parallelism before the change.
    pub open spec fn from_parallelism(&self) -> u32 {
        match self {
            ScalingOperation::ScaleOut { original_parallelism, .. } => *original_parallelism,
            ScalingOperation::ScaleIn { original_parallelism, .. } => *original_parallelism,
        }
    }

    /// Parallelism after the change.
    pub open spec fn to_parallelism(&self) -> u32 {
        match self {
            ScalingOperation::ScaleOut { new_parallelism, .. } => *new_parallelism,
            ScalingOperation::ScaleIn { new_parallelism, .. } => *new_parallelism,
        }
    }

    /// The operation that takes operator `node` from `old_p` to `new_p` subtasks.
    pub open spec fn describes(&self, node: u32, old_p: usize, new_p: usize) -> bool {
        &&& self.id_view() == decimal(node as nat)
        &&& self.from_parallelism() == old_p as u32
        &&& self.to_parallelism() == new_p as u32
        &&& match self {
            ScalingOperation::ScaleOut { .. } => new_p > old_p,
            ScalingOperation::ScaleIn { .. } => new_p < old_p,
        }
    }

    /// The operator's identifier.
    pub fn operator_id(&self) -> (id: &String)
        ensures
            id@ == self.id_view(),
    {
        match self {
            ScalingOperation::ScaleOut { operator_id, .. } => operator_id,
            ScalingOperation::ScaleIn { operator_id, .. } => operator_id,
        }
    }
}

/// A change of parallelism is requested for `node`: it has a parallelism
/// before and after, and the two differ.
pub open spec fn changes(old_p: Map<u32, usize>, new_p: Map<u32, usize>, node: u32) -> bool {
    &&& old_p.contains_key(node)
    &&& new_p.contains_key(node)
    &&& old_p[node] != new_p[node]
}

/// `op` is the operation for some operator whose parallelism changes.
pub open spec fn is_change_of(op: ScalingOperation, old_p: Map<u32, usize>, new_p: Map<u32, usize>) -> bool {
    exists|node: u32| #[trigger] changes(old_p, new_p, node) && op.describes(node, old_p[node], new_p[node])
}

/// Some operation in `ops` is the one for `node`.
pub open spec fn covers(ops: Seq<ScalingOperation>, old_p: Map<u32, usize>, new_p: Map<u32, usize>, node: u32) -> bool {
    exists|i: int| 0 <= i < ops.len() && #[trigger] ops[i].describes(node, old_p[node], new_p[node])
}

/// The operations of a plan are exactly the changes between two parallelism
/// maps, one per changed operator.
pub open spec fn plan_matches(ops: Seq<ScalingOperation>, old_p: Map<u32, usize>, new_p: Map<u32, usize>) -> bool {
    &&& forall|i: int| 0 <= i < ops.len() ==> #[trigger] is_change_of(ops[i], old_p, new_p)
    &&& forall|node: u32| #[trigger] changes(old_p, new_p, node) ==> covers(ops, old_p, new_p, node)
    &&& forall|i: int, j: int| 0 <= i < j < ops.len() ==> ops[i].id_view() != ops[j].id_view()
}

/// Different numbers have different decimal texts.
pub proof fn lemma_decimal_injective(a: nat, b: nat)
    requires
        decimal(a) == decimal(b),
    ensures
        a == b,
    decreases a + b,
{
    lemma_decimal_shape(a);
    lemma_decimal_shape(b);
    if a < 10 && b < 10 {
        assert(decimal(a)[0] == decimal(b)[0]);
    } else if a >= 10 && b >= 10 {
        let da = decimal(a);
        let db = decimal(b);
        assert(da.last() == db.last());
        assert(da.drop_last() =~= decimal(a / 10));
        assert(db.drop_last() =~= decimal(b / 10));
        lemma_decimal_injective(a / 10, b / 10);
    } else if a < 10 {
        lemma_decimal_shape(b / 10);
        assert(decimal(b).len() >= 2);
    } else {
        lemma_decimal_shape(a / 10);
        assert(decimal(a).len() >= 2);
    }
}

proof fn lemma_decimal_shape(n: nat)
    ensures
        decimal(n).len() >= 1,
        n >= 10 ==> decimal(n).len() >= 2,
        n < 10 ==> decimal(n).len() == 1,
        n >= 10 ==> decimal(n) == decimal(n / 10).push(crate::text::digit_char((n % 10) as int)),
        n % 10 == (crate::text::digit_char((n % 10) as int) as u32) - 48,
        (decimal(n).last() as u32) == 48 + n % 10,
    decreases n,
{
    if n >= 10 {
        lemma_decimal_shape(n / 10);
    }
}

/// A set of parallelism changes for one job.
#[derive(Debug, Clone)]
pub struct ScalingPlan {
    pub job_id: String,
    pub epoch: u32,
    pub operations: Vec<ScalingOperation>,
    pub created_at: SystemTime,
}

impl ScalingPlan {
    /// Compares the parallelism of each operator before and after and lists
    /// one operation for each operator whose parallelism changes. An operator
    /// that has no parallelism before is left out.
    pub fn new(
        job_id: String,
        epoch: u32,
        old_parallelism: &HashMap<u32, usize>,
        new_parallelism: &HashMap<u32, usize>,
    ) -> (plan: Self)
        ensures
            plan.job_id == job_id,
            plan.epoch == epoch,
            plan_matches(plan.operations@, old_parallelism@, new_parallelism@),
    {
        let keys = map_keys(new_parallelism);
        let ghost old_m = old_parallelism@;
        let ghost new_m = new_parallelism@;
        let mut operations: Vec<ScalingOperation> = Vec::new();
        // src[i] is the position in `keys` of the operator that operation i changes
        let ghost mut src: Seq<int> = Seq::empty();
        let mut k: usize = 0;
        while k < keys.len()
            invariant
                old_m == old_parallelism@,
                new_m == new_parallelism@,
                keys@.no_duplicates(),
                forall|j: int| 0 <= j < keys@.len() ==> #[trigger] new_m.contains_key(keys@[j]),
                0 <= k <= keys.len(),
                src.len() == operations@.len(),
                forall|i: int| #![trigger src[i]] 0 <= i < src.len() ==> 0 <= src[i] < k
                    && changes(old_m, new_m, keys@[src[i]])
                    && operations@[i].describes(keys@[src[i]], old_m[keys@[src[i]]], new_m[keys@[src[i]]]),
                forall|a: int, b: int| 0 <= a < b < src.len() ==> src[a] < src[b],
                forall|j: int| #![trigger keys@[j]] 0 <= j < k && changes(old_m, new_m, keys@[j]) ==>
                    exists|i: int| 0 <= i < src.len() && src[i] == j,
            decreases keys.len() - k,
        {
            let ghost old_src = src;
            let node_id = keys[k];
            let new_p = *new_parallelism.get(&node_id).unwrap();
            match old_parallelism.get(&node_id) {
                Some(old_p) => {
                    if new_p != *old_p {
                        let op = if new_p > *old_p {
                            ScalingOperation::ScaleOut {
                                operator_id: u64_to_decimal(node_id as u64),
                                original_parallelism: #[verifier::truncate] (*old_p as u32),
                                new_parallelism: #[verifier::truncate] (new_p as u32),
                            }
                        } else {
                            ScalingOperation::ScaleIn {
                                operator_id: u64_to_decimal(node_id as u64),
                                original_parallelism: #[verifier::truncate] (*old_p as u32),
                                new_parallelism: #[verifier::truncate] (new_p as u32),
                            }
                        };
                        operations.push(op);
                        proof {
                            src = src.push(k as int);
                            assert(changes(old_m, new_m, keys@[k as int]));
                        }
                    }
                },
                None => {},
            }
            proof {
                assert forall|j: int| #![trigger keys@[j]] 0 <= j < k + 1 && changes(old_m, new_m, keys@[j]) implies
                    exists|i: int| 0 <= i < src.len() && src[i] == j by {
                    if j == k {
                        assert(src[src.len() - 1] == j);
                    } else {
                        let i = choose|i: int| 0 <= i < old_src.len() && old_src[i] == j;
                        assert(src[i] == old_src[i]);
                    }
                }
            }
            k = k + 1;
        }
        proof {
            assert forall|i: int, j: int| 0 <= i < j < operations@.len() implies
                operations@[i].id_view() != operations@[j].id_view() by {
                if operations@[i].id_view() == operations@[j].id_view() {
                    assert(src[i] < src[j]);
                    lemma_decimal_injective(keys@[src[i]] as nat, keys@[src[j]] as nat);
                    assert(keys@[src[i]] == keys@[src[j]]);
                }
            }
            assert forall|i: int| 0 <= i < operations@.len() implies
                #[trigger] is_change_of(operations@[i], old_m, new_m) by {
                assert(src[i] == src[i]);
                let node = keys@[src[i]];
                assert(changes(old_m, new_m, node) && operations@[i].describes(node, old_m[node], new_m[node]));
            }
            assert forall|node: u32| #[trigger] changes(old_m, new_m, node) implies
                covers(operations@, old_m, new_m, node) by {
                assert(keys@.contains(node));
                let j = choose|j: int| 0 <= j < keys@.len() && keys@[j] == node;
                assert(keys@[j] == node);
                let i = choose|i: int| 0 <= i < src.len() && src[i] == j;
                assert(src[i] == src[i]);
            }
        }
        proof {
            assert(plan_matches(operations@, old_m, new_m));
        }
        ScalingPlan { job_id, epoch, operations, created_at: system_now() }
    }

    /// Whether the plan changes anything.
    pub fn has_operations(&self) -> (b: bool)
        ensures
            b == (self.operations@.len() > 0),
    {
        !self.operations.is_empty()
    }

    /// The identifiers of the operators that the plan changes.
    pub fn get_affected_operators(&self) -> (ids: StringSet)
        ensures
            ids.wf(),
            ids.view() == Set::new(|s: Seq<char>| exists|i: int| 0 <= i < self.operations@.len()
                && #[trigger] self.operations@[i].id_view() == s),
    {
        let mut ids = StringSet::new();
        let mut i: usize = 0;
        while i < self.operations.len()
            invariant
                0 <= i <= self.operations@.len(),
                ids.wf(),
                ids.view() == Set::new(|s: Seq<char>| exists|j: int| 0 <= j < i
                    && #[trigger] self.operations@[j].id_view() == s),
            decreases self.operations.len() - i,
        {
            let id = self.operations[i].operator_id();
            let ghost before = ids.view();
            ids.insert(copy_string(id));
            proof {
                assert(ids.view() =~= Set::new(|s: Seq<char>| exists|j: int| 0 <= j < i + 1
                    && #[trigger] self.operations@[j].id_view() == s)) by {
                    assert forall|s: Seq<char>| (exists|j: int| 0 <= j < i + 1 && #[trigger] self.operations@[j].id_view() == s)
                        implies ids.view().contains(s) by {
                        let j = choose|j: int| 0 <= j < i + 1 && #[trigger] self.operations@[j].id_view() == s;
                        if j < i {
                            assert(before.contains(s));
                        }
                    }
                }
            }
            i = i + 1;
        }
        ids
    }
}

/// Subtasks `lo..hi`, in order.
pub open spec fn index_range(lo: int, hi: int) -> Seq<u32> {
    Seq::new(if hi > lo { (hi - lo) as nat } else { 0 }, |k: int| (lo + k) as u32)
}

/// Where the state of old subtask `i` goes when `o` subtasks become `n`.
/// Growing, each old subtask hands its state to the new subtasks that cover
/// its share `[i*n/o, (i+1)*n/o)` of the key space; shrinking, old subtask `i`
/// merges into new subtask `i*n/o`.
pub open spec fn redistribution_targets(i: int, o: int, n: int) -> Seq<u32> {
    if n > o {
        index_range((i * n) / o, ((i + 1) * n + o - 1) / o)
    } else {
        seq![((i * n) / o) as u32]
    }
}

/// A mapping that sends each old subtask `0..o` to its targets.
pub open spec fn mapping_for(m: Map<u32, Vec<u32>>, o: u32, n: u32) -> bool {
    &&& forall|i: u32| #[trigger] m.contains_key(i) <==> i < o
    &&& forall|i: u32| i < o ==> (#[trigger] m[i])@ == redistribution_targets(i as int, o as int, n as int)
}

/// A plan to move the keyed state of one operator from `original_parallelism`
/// subtasks to `new_parallelism` subtasks, table by table.
#[derive(Debug)]
pub struct StateRedistributionPlan {
    pub job_id: String,
    pub checkpoint_epoch: u32,
    pub operator_id: String,
    pub original_parallelism: u32,
    pub new_parallelism: u32,
    /// table name -> old subtask -> new subtasks
    pub state_mapping: StringMap<HashMap<u32, Vec<u32>>>,
}

impl StateRedistributionPlan {
    /// A plan with no table mapped yet.
    pub fn new(
        job_id: String,
        checkpoint_epoch: u32,
        operator_id: String,
        original_parallelism: u32,
        new_parallelism: u32,
    ) -> (plan: Self)
        ensures
            plan.job_id == job_id,
            plan.checkpoint_epoch == checkpoint_epoch,
            plan.operator_id == operator_id,
            plan.original_parallelism == original_parallelism,
            plan.new_parallelism == new_parallelism,
            plan.state_mapping.wf(),
            plan.state_mapping.view() == Map::<Seq<char>, HashMap<u32, Vec<u32>>>::empty(),
    {
        StateRedistributionPlan {
            job_id,
            checkpoint_epoch,
            operator_id,
            original_parallelism,
            new_parallelism,
            state_mapping: StringMap::new(),
        }
    }

    /// Maps every old subtask of every named table to its new subtasks.
    /// Tables not named keep their mapping.
    pub fn compute_state_mapping(&mut self, table_names: &[String]) -> (r: Result<(), String>)
        requires
            old(self).state_mapping.wf(),
        ensures
            r is Ok,
            final(self).job_id == old(self).job_id,
            final(self).checkpoint_epoch == old(self).checkpoint_epoch,
            final(self).operator_id == old(self).operator_id,
            final(self).original_parallelism == old(self).original_parallelism,
            final(self).new_parallelism == old(self).new_parallelism,
            final(self).state_mapping.wf(),
            forall|t: Seq<char>| #[trigger] final(self).state_mapping.view().contains_key(t) <==>
                (old(self).state_mapping.view().contains_key(t)
                    || exists|j: int| 0 <= j < table_names@.len() && table_names@[j]@ == t),
            forall|j: int| 0 <= j < table_names@.len() ==> mapping_for(
                (#[trigger] final(self).state_mapping.view()[table_names@[j]@])@,
                old(self).original_parallelism, old(self).new_parallelism),
            forall|t: Seq<char>| #![trigger final(self).state_mapping.view()[t]]
                old(self).state_mapping.view().contains_key(t)
                && !(exists|j: int| 0 <= j < table_names@.len() && table_names@[j]@ == t) ==>
                final(self).state_mapping.view()[t] == old(self).state_mapping.view()[t],
    {
        let mut k: usize = 0;
        let ghost start = self.state_mapping.view();
        while k < table_names.len()
            invariant
                0 <= k <= table_names@.len(),
                self.state_mapping.wf(),
                self.job_id == old(self).job_id,
                self.checkpoint_epoch == old(self).checkpoint_epoch,
                self.operator_id == old(self).operator_id,
                self.original_parallelism == old(self).original_parallelism,
                self.new_parallelism == old(self).new_parallelism,
                start == old(self).state_mapping.view(),
                forall|t: Seq<char>| #[trigger] self.state_mapping.view().contains_key(t) <==>
                    (start.contains_key(t) || exists|j: int| 0 <= j < k && table_names@[j]@ == t),
                forall|j: int| 0 <= j < k ==> mapping_for(
                    (#[trigger] self.state_mapping.view()[table_names@[j]@])@,
                    self.original_parallelism, self.new_parallelism),
                forall|t: Seq<char>| #![trigger self.state_mapping.view()[t]]
                    start.contains_key(t) && !(exists|j: int| 0 <= j < k && table_names@[j]@ == t) ==>
                    self.state_mapping.view()[t] == start[t],
            decreases table_names.len() - k,
        {
            let mapping = self.table_mapping();
            let name = crate::scaling::copy_string(&table_names[k]);
            let ghost before = self.state_mapping.view();
            self.state_mapping.insert(name, mapping);
            proof {
                let tk = table_names@[k as int]@;
                assert forall|t: Seq<char>| #[trigger] self.state_mapping.view().contains_key(t) <==>
                    (start.contains_key(t) || exists|j: int| 0 <= j < k + 1 && table_names@[j]@ == t) by {
                    if t == tk {
                        assert(table_names@[k as int]@ == t);
                    } else if exists|j: int| 0 <= j < k + 1 && table_names@[j]@ == t {
                        let j = choose|j: int| 0 <= j < k + 1 && table_names@[j]@ == t;
                        assert(j != k);
                    }
                }
                assert forall|j: int| 0 <= j < k + 1 implies mapping_for(
                    (#[trigger] self.state_mapping.view()[table_names@[j]@])@,
                    self.original_parallelism, self.new_parallelism) by {
                    if table_names@[j]@ != tk {
                        assert(before[table_names@[j]@] == self.state_mapping.view()[table_names@[j]@]);
                    }
                }
                assert forall|t: Seq<char>| #![trigger self.state_mapping.view()[t]]
                    start.contains_key(t) && !(exists|j: int| 0 <= j < k + 1 && table_names@[j]@ == t) implies
                    self.state_mapping.view()[t] == start[t] by {
                    assert(t != tk);
                    assert(!(exists|j: int| 0 <= j < k && table_names@[j]@ == t)) by {
                        if exists|j: int| 0 <= j < k && table_names@[j]@ == t {
                            let j = choose|j: int| 0 <= j < k && table_names@[j]@ == t;
                            assert(0 <= j < k + 1);
                        }
                    }
                }
            }
            k = k + 1;
        }
        Ok(())
    }

    /// The mapping of one table: every old subtask to its targets.
    fn table_mapping(&self) -> (m: HashMap<u32, Vec<u32>>)
        ensures
            mapping_for(m@, self.original_parallelism, self.new_parallelism),
    {
        let mut m: HashMap<u32, Vec<u32>> = HashMap::new();
        let mut i: u32 = 0;
        while i < self.original_parallelism
            invariant
                0 <= i <= self.original_parallelism,
                forall|x: u32| #[trigger] m@.contains_key(x) <==> x < i,
                forall|x: u32| x < i ==> (#[trigger] m@[x])@ == redistribution_targets(
                    x as int, self.original_parallelism as int, self.new_parallelism as int),
            decreases self.original_parallelism - i,
        {
            let targets = if self.new_parallelism > self.original_parallelism {
                self.compute_scale_out_mapping(i)
            } else {
                self.compute_scale_in_mapping(i)
            };
            m.insert(i, targets);
            i = i + 1;
        }
        m
    }

    /// New subtasks that share the keys of old subtask `subtask_idx` when growing.
    fn compute_scale_out_mapping(&self, subtask_idx: u32) -> (r: Vec<u32>)
        requires
            subtask_idx < self.original_parallelism,
            self.new_parallelism > self.original_parallelism,
        ensures
            r@ == redistribution_targets(subtask_idx as int, self.original_parallelism as int, self.new_parallelism as int),
    {
        let o = self.original_parallelism as u64;
        let n = self.new_parallelism as u64;
        let i = subtask_idx as u64;
        proof {
            assert(i * n <= (o - 1) * n) by (nonlinear_arith) requires i <= o - 1, n >= 0;
            assert((o - 1) * n < o * n) by (nonlinear_arith) requires o >= 1, n >= 1;
            assert(o * n <= 0xffff_ffff * 0xffff_ffffu64) by (nonlinear_arith) requires o <= 0xffff_ffff, n <= 0xffff_ffff;
            assert((i + 1) * n <= o * n) by (nonlinear_arith) requires i + 1 <= o, n >= 0;
        }
        let start: u64 = (i * n) / o;
        let end: u64 = ((i + 1) * n + o - 1) / o;
        proof {
            let ii = i as int;
            let nn = n as int;
            let oo = o as int;
            assert(((ii + 1) * nn + oo - 1) / oo <= nn) by (nonlinear_arith)
                requires (ii + 1) * nn <= oo * nn, oo >= 1, nn >= 0;
            assert((ii * nn) / oo <= nn) by (nonlinear_arith) requires ii * nn <= oo * nn, oo >= 1, nn >= 0;
            assert((ii * nn) / oo <= ((ii + 1) * nn + oo - 1) / oo) by (nonlinear_arith)
                requires oo >= 1, nn >= 0, ii >= 0;
        }
        let mut r: Vec<u32> = Vec::new();
        let mut x: u64 = start;
        while x < end
            invariant
                start <= x,
                x <= end,
                end <= n,
                n <= 0xffff_ffff,
                r@ == index_range(start as int, x as int),
            decreases end - x,
        {
            r.push(x as u32);
            proof {
                assert(r@ =~= index_range(start as int, x as int + 1));
            }
            x = x + 1;
        }
        r
    }

    /// The new subtask that takes over old subtask `subtask_idx` when shrinking.
    fn compute_scale_in_mapping(&self, subtask_idx: u32) -> (r: Vec<u32>)
        requires
            subtask_idx < self.original_parallelism,
            self.new_parallelism <= self.original_parallelism,
        ensures
            r@ == redistribution_targets(subtask_idx as int, self.original_parallelism as int, self.new_parallelism as int),
    {
        let o = self.original_parallelism as u64;
        let n = self.new_parallelism as u64;
        let i = subtask_idx as u64;
        proof {
            assert(i * n <= 0xffff_ffff * 0xffff_ffffu64) by (nonlinear_arith)
                requires i <= 0xffff_ffff, n <= 0xffff_ffff;
            let (ii, nn, oo) = (i as int, n as int, o as int);
            assert(ii * nn / oo <= ii) by (nonlinear_arith) requires nn <= oo, oo >= 1, ii >= 0, nn >= 0;
        }
        let target_idx = (i * n / o) as u32;
        let mut r: Vec<u32> = Vec::new();
        r.push(target_idx);
        proof {
            assert(r@ =~= seq![target_idx]);
        }
        r
    }

    /// Where the state of `subtask` for `table` lives in the checkpoint:
    /// `job/epoch/operator/table/subtask`.
    pub fn state_path(&self, table: &str, subtask: u32) -> (p: String)
        ensures
            p@ == state_path_of(self.job_id@, self.checkpoint_epoch, self.operator_id@, table@, subtask),
    {
        let mut cs: Vec<char> = Vec::new();
        append_chars(&mut cs, self.job_id.as_str());
        cs.push('/');
        append_chars(&mut cs, u64_to_decimal(self.checkpoint_epoch as u64).as_str());
        cs.push('/');
        append_chars(&mut cs, self.operator_id.as_str());
        cs.push('/');
        append_chars(&mut cs, table);
        cs.push('/');
        append_chars(&mut cs, u64_to_decimal(subtask as u64).as_str());
        string_from_chars(&cs)
    }
}

/// The checkpoint location of one subtask's state of one table.
pub open spec fn state_path_of(job: Seq<char>, epoch: u32, operator: Seq<char>, table: Seq<char>, subtask: u32) -> Seq<char> {
    job + seq!['/'] + decimal(epoch as nat) + seq!['/'] + operator + seq!['/'] + table + seq!['/'] + decimal(subtask as nat)
}

/// The keys of a map, each once.
pub fn map_keys(m: &HashMap<u32, usize>) -> (keys: Vec<u32>)
    ensures
        keys@.no_duplicates(),
        forall|j: int| 0 <= j < keys@.len() ==> #[trigger] m@.contains_key(keys@[j]),
        forall|k: u32| m@.contains_key(k) ==> #[trigger] keys@.contains(k),
{
    let mut keys: Vec<u32> = Vec::new();
    let ghost mm = m@;
    for (key, _v) in it: m.iter()
        invariant
            mm == m@,
            it.seq().no_duplicates(),
            forall|i: int| #![trigger it.seq()[i]] 0 <= i < it.seq().len() ==>
                mm.contains_key(*it.seq()[i].0) && mm[*it.seq()[i].0] == *it.seq()[i].1,
            forall|k: u32| #[trigger] mm.contains_key(k) ==> it.seq().contains((&k, &mm[k])),
            keys@ == it.seq().subrange(0, it.index()).map_values(|p: (&u32, &usize)| *p.0),
            keys@.no_duplicates(),
            forall|j: int| 0 <= j < keys@.len() ==> #[trigger] mm.contains_key(keys@[j]),
            forall|k: u32| #[trigger] mm.contains_key(k) && !keys@.contains(k) ==>
                exists|j: int| it.index() <= j < it.seq().len() && *it.seq()[j].0 == k,
    {
        let ghost idx = it.index();
        proof {
            assert(it.seq()[idx] == (key, _v));
            assert forall|q: int| 0 <= q < keys@.len() implies keys@[q] != *key by {
                if keys@[q] == *key {
                    assert(*it.seq()[q].0 == *key);
                    assert(mm[*it.seq()[q].0] == *it.seq()[q].1);
                    assert(it.seq()[q] == it.seq()[idx]);
                }
            }
        }
        keys.push(*key);
        proof {
            assert(keys@[idx] == *key);
            assert(mm.contains_key(*it.seq()[idx].0));
            assert(it.seq().subrange(0, idx + 1).map_values(|p: (&u32, &usize)| *p.0) =~= keys@);
            assert forall|k: u32| #[trigger] mm.contains_key(k) && !keys@.contains(k) implies
                exists|j: int| idx + 1 <= j < it.seq().len() && *it.seq()[j].0 == k by {
                assert(!keys@.drop_last().contains(k)) by {
                    if keys@.drop_last().contains(k) {
                        let q = choose|q: int| 0 <= q < keys@.drop_last().len() && keys@.drop_last()[q] == k;
                        assert(keys@[q] == k);
                    }
                }
                assert(keys@.drop_last() =~= it.seq().subrange(0, idx).map_values(|p: (&u32, &usize)| *p.0));
                let j = choose|j: int| idx <= j < it.seq().len() && *it.seq()[j].0 == k;
                if j == idx {
                    assert(keys@[idx] == k);
                }
            }
        }
    }
    keys
}

/// A copy of a string.
pub fn copy_string(s: &String) -> (r: String)
    ensures
        r@ == s@,
{
    s.clone()
}

/// No state goes to a subtask that does not exist: every target of an old
/// subtask is one of the `n` new subtasks, and every old subtask has one.
pub proof fn lemma_targets_in_range(i: int, o: int, n: int)
    requires
        0 <= i < o,
        1 <= n <= u32::MAX,
    ensures
        redistribution_targets(i, o, n).len() >= 1,
        forall|k: int| 0 <= k < redistribution_targets(i, o, n).len() ==>
            (#[trigger] redistribution_targets(i, o, n)[k]) < n,
{
    if n > o {
        let lo = (i * n) / o;
        let hi = ((i + 1) * n + o - 1) / o;
        assert(lo < hi && hi <= n && lo >= 0) by (nonlinear_arith)
            requires 0 <= i < o, n > o, lo == (i * n) / o, hi == ((i + 1) * n + o - 1) / o;
        let t = redistribution_targets(i, o, n);
        assert forall|k: int| 0 <= k < t.len() implies (#[trigger] t[k]) < n by {
            assert(t[k] == (lo + k) as u32);
            assert(lo + k < n);
        }
    } else {
        let q = (i * n) / o;
        assert(0 <= q < n) by (nonlinear_arith) requires 0 <= i < o, 1 <= n <= o, q == (i * n) / o;
    }
}

/// Every new subtask receives the state of some old subtask.
pub proof fn lemma_every_new_subtask_is_covered(j: int, o: int, n: int)
    requires
        0 <= j < n,
        1 <= o,
        n <= u32::MAX,
    ensures
        exists|i: int| 0 <= i < o && #[trigger] redistribution_targets(i, o, n).contains(j as u32),
{
    if n > o {
        let i = (j * o) / n;
        let lo = (i * n) / o;
        let hi = ((i + 1) * n + o - 1) / o;
        assert(0 <= i < o) by (nonlinear_arith) requires 0 <= j < n, 1 <= o, i == (j * o) / n;
        assert(i * n <= j * o && j * o < (i + 1) * n) by (nonlinear_arith)
            requires 0 <= j, n > 0, i == (j * o) / n, o >= 1;
        assert(lo <= j) by (nonlinear_arith) requires i * n <= j * o, o >= 1, lo == (i * n) / o, j >= 0;
        assert(j < hi) by (nonlinear_arith) requires j * o < (i + 1) * n, o >= 1, hi == ((i + 1) * n + o - 1) / o, j >= 0;
        let t = redistribution_targets(i, o, n);
        assert(t[j - lo] == (lo + (j - lo)) as u32);
        assert(t.contains(j as u32));
    } else {
        let i = (j * o + n - 1) / n;
        assert(0 <= i < o) by (nonlinear_arith) requires 0 <= j < n, n <= o, n >= 1, i == (j * o + n - 1) / n;
        assert(i * n >= j * o && i * n < j * o + n) by (nonlinear_arith)
            requires n >= 1, j >= 0, o >= 1, i == (j * o + n - 1) / n;
        assert((i * n) / o == j) by (nonlinear_arith)
            requires i * n >= j * o, i * n < j * o + n, n <= o, o >= 1, j >= 0;
        let t = redistribution_targets(i, o, n);
        assert(t[0] == j as u32);
        assert(t.contains(j as u32));
    }
}

} // verus!
