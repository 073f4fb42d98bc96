//! Optimizers of logical plans for streaming queries: join strategy and
//! join rewriting decisions, predicate pushdown and projection pushdown,
//! each applied to every operator from the leaves up. Building an operator
//! is taken to succeed: the types of expressions are not checked here.

use vstd::prelude::*;
use vstd::multiset::Multiset;
use crate::charclass::{lowercase, to_lowercase};
use crate::logical_plan::{
    scans_of, scans_in, expr_columns, expr_to_columns, output_fields, plan_fields, all_columns, BinaryOp, FilterNode,
    JoinKind, JoinNode, Plan, PlanExpr, PlanInputs, ProjectionNode, TableScanNode,
};
use crate::prql::{occurs_in, text_contains};
use crate::scaling::copy_string;
use crate::strmap::str_eq;
use crate::text::{chars_of, texts};

verus! {

/// How large a table is expected to be.
#[derive(Debug, Clone, Copy, PartialEq, Eq, Structural)]
pub enum TableSize {
    /// Small enough to broadcast.
    Small,
    Medium,
    /// Large enough to partition.
    Large,
}

impl TableSize {
    /// Whether the table is small.
    pub fn is_small(&self) -> (b: bool)
        ensures
            b == (*self == TableSize::Small),
    {
        matches!(self, TableSize::Small)
    }
}

/// The expected size of a plan's output: a scan of a table whose name
/// mentions `dimension` or `lookup` is small and any other scan is large;
/// filters and projections keep their input's size; an aggregate is of
/// medium size; anything else is large.
pub open spec fn plan_size(p: Plan) -> TableSize
    decreases p,
{
    match p {
        Plan::TableScan(s) => if occurs_in(s.table_name@, "dimension"@) || occurs_in(s.table_name@, "lookup"@) {
            TableSize::Small
        } else {
            TableSize::Large
        },
        Plan::Filter(f) => plan_size(*f.input),
        Plan::Projection(pr) => plan_size(*pr.input),
        Plan::Aggregate { .. } => TableSize::Medium,
        _ => TableSize::Large,
    }
}

/// Whether a column name looks like a time: in lower case it mentions
/// `time`, `timestamp` or `date`.
pub open spec fn time_name(n: Seq<char>) -> bool {
    occurs_in(lowercase(n), "time"@) || occurs_in(lowercase(n), "timestamp"@) || occurs_in(lowercase(n), "date"@)
}

/// Whether an expression reads a column that looks like a time.
pub open spec fn reads_time_column(e: PlanExpr) -> bool {
    exists|i: int| 0 <= i < expr_columns(e).len() && #[trigger] time_name(expr_columns(e)[i])
}

/// Whether a join condition involves time: a conjunction or disjunction
/// of which a part does, a comparison that reads a time column on either
/// side, or a `BETWEEN` whose tested expression reads one.
pub open spec fn time_condition(e: PlanExpr) -> bool
    decreases e,
{
    match e {
        PlanExpr::Binary { left, op, right } => match op {
            BinaryOp::And | BinaryOp::Or => time_condition(*left) || time_condition(*right),
            BinaryOp::Eq | BinaryOp::NotEq | BinaryOp::Lt | BinaryOp::LtEq | BinaryOp::Gt | BinaryOp::GtEq =>
                reads_time_column(*left) || reads_time_column(*right),
            _ => false,
        },
        PlanExpr::Between { expr, .. } => reads_time_column(*expr),
        _ => false,
    }
}

/// Whether a join involves time: by its filter when it has one, else by
/// the expressions it joins on.
pub open spec fn join_has_time_condition(j: JoinNode) -> bool {
    match j.filter {
        Some(f) => time_condition(f),
        None => exists|i: int|
            0 <= i < j.on@.len() && (reads_time_column(#[trigger] j.on@[i].0) || reads_time_column(j.on@[i].1)),
    }
}

/// A strategy for a join.
#[derive(Debug, Clone, Copy, PartialEq, Eq, Structural)]
pub enum JoinStrategy {
    /// A join over time windows, with the expected sizes of its inputs.
    Window { left_size: TableSize, right_size: TableSize },
    /// A join that broadcasts one input to the other.
    Broadcast { broadcast_left: bool },
    /// A join that partitions both inputs.
    Partitioned,
}

/// The strategy for a join: over windows when it involves time; else
/// broadcasting the one input that is small; else partitioned.
pub open spec fn join_strategy(j: JoinNode) -> JoinStrategy {
    let l = plan_size(*j.left);
    let r = plan_size(*j.right);
    if join_has_time_condition(j) {
        JoinStrategy::Window { left_size: l, right_size: r }
    } else if l == TableSize::Small && r != TableSize::Small {
        JoinStrategy::Broadcast { broadcast_left: true }
    } else if l != TableSize::Small && r == TableSize::Small {
        JoinStrategy::Broadcast { broadcast_left: false }
    } else {
        JoinStrategy::Partitioned
    }
}

/// Chooses join strategies for streaming joins.
#[derive(Debug, Clone, Copy)]
pub struct JoinOptimizer {}

/// Rewrites suitable joins into lookup joins or window joins.
#[derive(Debug, Clone, Copy)]
pub struct JoinRewriter {}

/// Pushes filters down towards the table scans.
#[derive(Debug, Clone, Copy)]
pub struct PredicatePushdown {}

/// Pushes projections down towards the table scans.
#[derive(Debug, Clone, Copy)]
pub struct ProjectionPushdown {}

/// Whether `name` is among `fields`.
fn listed(fields: &Vec<String>, name: &str) -> (b: bool)
    ensures
        b == texts(fields@).contains(name@),
{
    let mut i: usize = 0;
    while i < fields.len()
        invariant
            0 <= i <= fields@.len(),
            forall|j: int| 0 <= j < i ==> fields@[j]@ != name@,
        decreases fields.len() - i,
    {
        if str_eq(fields[i].as_str(), name) {
            proof {
                assert(texts(fields@)[i as int] == name@);
            }
            return true;
        }
        i = i + 1;
    }
    proof {
        assert forall|j: int| 0 <= j < texts(fields@).len() implies texts(fields@)[j] != name@ by {
            assert(texts(fields@)[j] == fields@[j]@);
        }
    }
    false
}

/// Whether every name of `names` is among `fields`.
fn all_listed(names: &Vec<String>, fields: &Vec<String>) -> (b: bool)
    ensures
        b == (forall|i: int| 0 <= i < names@.len() ==> texts(fields@).contains(#[trigger] texts(names@)[i])),
{
    let mut i: usize = 0;
    while i < names.len()
        invariant
            0 <= i <= names@.len(),
            forall|j: int| 0 <= j < i ==> texts(fields@).contains(#[trigger] texts(names@)[j]),
        decreases names.len() - i,
    {
        if !listed(fields, names[i].as_str()) {
            proof {
                assert(texts(names@)[i as int] == names@[i as int]@);
            }
            return false;
        }
        proof {
            assert(texts(names@)[i as int] == names@[i as int]@);
        }
        i = i + 1;
    }
    true
}

impl JoinOptimizer {
    pub fn new() -> (o: Self)
        ensures
            o == (JoinOptimizer {}),
    {
        JoinOptimizer {}
    }

    /// The expected size of a plan's output.
    pub fn estimate_table_size(&self, plan: &Plan) -> (s: TableSize)
        ensures
            s == plan_size(*plan),
        decreases plan,
    {
        match plan {
            Plan::TableScan(scan) => {
                let cs = chars_of(scan.table_name.as_str());
                if text_contains(&cs, "dimension") || text_contains(&cs, "lookup") {
                    TableSize::Small
                } else {
                    TableSize::Large
                }
            },
            Plan::Filter(f) => self.estimate_table_size(&f.input),
            Plan::Projection(pr) => self.estimate_table_size(&pr.input),
            Plan::Aggregate { .. } => TableSize::Medium,
            _ => TableSize::Large,
        }
    }

    /// Whether a column name looks like a time.
    pub fn is_time_column_name(&self, name: &str) -> (b: bool)
        ensures
            b == time_name(name@),
    {
        let lower = to_lowercase(name);
        let cs = chars_of(lower.as_str());
        text_contains(&cs, "time") || text_contains(&cs, "timestamp") || text_contains(&cs, "date")
    }

    /// Whether an expression reads a column that looks like a time.
    pub fn is_time_column(&self, expr: &PlanExpr) -> (b: bool)
        ensures
            b == reads_time_column(*expr),
    {
        let cols = expr_to_columns(expr);
        let mut i: usize = 0;
        while i < cols.len()
            invariant
                0 <= i <= cols@.len(),
                texts(cols@) == expr_columns(*expr),
                forall|j: int| 0 <= j < i ==> !#[trigger] time_name(expr_columns(*expr)[j]),
            decreases cols.len() - i,
        {
            proof {
                assert(texts(cols@)[i as int] == cols@[i as int]@);
            }
            if self.is_time_column_name(cols[i].as_str()) {
                return true;
            }
            i = i + 1;
        }
        false
    }

    /// Whether a join condition involves time.
    pub fn is_time_condition(&self, expr: &PlanExpr) -> (b: bool)
        ensures
            b == time_condition(*expr),
        decreases expr,
    {
        match expr {
            PlanExpr::Binary { left, op, right } => match op {
                BinaryOp::And | BinaryOp::Or => self.is_time_condition(left) || self.is_time_condition(right),
                BinaryOp::Eq | BinaryOp::NotEq | BinaryOp::Lt | BinaryOp::LtEq | BinaryOp::Gt | BinaryOp::GtEq =>
                    self.is_time_column(left) || self.is_time_column(right),
                _ => false,
            },
            PlanExpr::Between { expr: tested, .. } => self.is_time_column(tested),
            _ => false,
        }
    }

    /// Whether a join involves time.
    pub fn has_time_condition(&self, join: &JoinNode) -> (b: bool)
        ensures
            b == join_has_time_condition(*join),
    {
        match &join.filter {
            Some(f) => self.is_time_condition(f),
            None => {
                let mut i: usize = 0;
                while i < join.on.len()
                    invariant
                        0 <= i <= join.on@.len(),
                        join.filter is None,
                        forall|j: int| 0 <= j < i ==> !(reads_time_column(#[trigger] join.on@[j].0) || reads_time_column(join.on@[j].1)),
                    decreases join.on.len() - i,
                {
                    let pair = &join.on[i];
                    if self.is_time_column(&pair.0) || self.is_time_column(&pair.1) {
                        return true;
                    }
                    i = i + 1;
                }
                false
            },
        }
    }

    /// The strategy for a join. Every strategy leaves the join as it is.
    pub fn optimize_join_strategy(&self, join: &JoinNode) -> (s: JoinStrategy)
        ensures
            s == join_strategy(*join),
    {
        let left_size = self.estimate_table_size(&join.left);
        let right_size = self.estimate_table_size(&join.right);
        if self.has_time_condition(join) {
            JoinStrategy::Window { left_size, right_size }
        } else if left_size.is_small() && !right_size.is_small() {
            JoinStrategy::Broadcast { broadcast_left: true }
        } else if !left_size.is_small() && right_size.is_small() {
            JoinStrategy::Broadcast { broadcast_left: false }
        } else {
            JoinStrategy::Partitioned
        }
    }

    /// Optimizes a plan: the strategy chosen for a join leaves it as it
    /// is, so the plan comes back unchanged.
    pub fn optimize(&self, plan: Plan) -> (r: Plan)
        ensures
            r == plan,
    {
        plan
    }
}

/// Whether a table name looks like a dimension table: in lower case it
/// mentions `dimension`, `lookup` or `dim`.
pub open spec fn dimension_name(n: Seq<char>) -> bool {
    occurs_in(lowercase(n), "dimension"@) || occurs_in(lowercase(n), "lookup"@) || occurs_in(lowercase(n), "dim"@)
}

/// Whether a plan is a scan of a dimension table.
pub open spec fn is_dimension(p: Plan) -> bool {
    match p {
        Plan::TableScan(s) => dimension_name(s.table_name@),
        _ => false,
    }
}

/// Whether a join can be a lookup join: an inner or left join, on at
/// least one pair of expressions, whose right input is a scan of a
/// dimension table.
pub open spec fn lookup_join_fits(j: JoinNode) -> bool {
    (j.join_type == JoinKind::Inner || j.join_type == JoinKind::Left) && is_dimension(*j.right) && j.on@.len() > 0
}

/// Whether a filter holds a time window: a conjunction or disjunction of
/// which a part does, or a `BETWEEN` whose tested expression reads a time
/// column.
pub open spec fn time_window_condition(e: PlanExpr) -> bool
    decreases e,
{
    match e {
        PlanExpr::Binary { left, op, right } => match op {
            BinaryOp::And | BinaryOp::Or => time_window_condition(*left) || time_window_condition(*right),
            _ => false,
        },
        PlanExpr::Between { expr, .. } => reads_time_column(*expr),
        _ => false,
    }
}

/// Whether a join can be a window join: its filter holds a time window.
pub open spec fn window_join_fits(j: JoinNode) -> bool {
    match j.filter {
        Some(f) => time_window_condition(f),
        None => false,
    }
}

impl JoinRewriter {
    pub fn new() -> (o: Self)
        ensures
            o == (JoinRewriter {}),
    {
        JoinRewriter {}
    }

    /// Whether a plan is a scan of a dimension table.
    pub fn is_dimension_table(&self, plan: &Plan) -> (b: bool)
        ensures
            b == is_dimension(*plan),
    {
        match plan {
            Plan::TableScan(scan) => {
                let lower = to_lowercase(scan.table_name.as_str());
                let cs = chars_of(lower.as_str());
                text_contains(&cs, "dimension") || text_contains(&cs, "lookup") || text_contains(&cs, "dim")
            },
            _ => false,
        }
    }

    /// Whether a join can be a lookup join.
    pub fn can_use_lookup_join(&self, join: &JoinNode) -> (b: bool)
        ensures
            b == lookup_join_fits(*join),
    {
        match join.join_type {
            JoinKind::Inner | JoinKind::Left => {},
            _ => return false,
        }
        if !self.is_dimension_table(&join.right) {
            return false;
        }
        join.on.len() > 0
    }

    /// Whether an expression reads a column that looks like a time.
    pub fn is_time_column_expr(&self, expr: &PlanExpr) -> (b: bool)
        ensures
            b == reads_time_column(*expr),
    {
        JoinOptimizer {}.is_time_column(expr)
    }

    /// Whether a filter holds a time window.
    pub fn has_time_window_condition(&self, expr: &PlanExpr) -> (b: bool)
        ensures
            b == time_window_condition(*expr),
        decreases expr,
    {
        match expr {
            PlanExpr::Binary { left, op, right } => match op {
                BinaryOp::And | BinaryOp::Or => self.has_time_window_condition(left) || self.has_time_window_condition(right),
                _ => false,
            },
            PlanExpr::Between { expr: tested, .. } => self.is_time_column_expr(tested),
            _ => false,
        }
    }

    /// Whether a join can be a window join.
    pub fn can_use_window_join(&self, join: &JoinNode) -> (b: bool)
        ensures
            b == window_join_fits(*join),
    {
        match &join.filter {
            Some(f) => self.has_time_window_condition(f),
            None => false,
        }
    }

    /// Rewrites a plan: a join that fits a lookup or window join is left as
    /// it is, so the plan comes back unchanged.
    pub fn optimize(&self, plan: Plan) -> (r: Plan)
        ensures
            r == plan,
    {
        plan
    }
}

/// The conjuncts of a predicate: the parts that `AND` joins, left to right.
pub open spec fn conjuncts(e: PlanExpr) -> Seq<PlanExpr>
    decreases e,
{
    match e {
        PlanExpr::Binary { left, op, right } => if op == BinaryOp::And {
            conjuncts(*left) + conjuncts(*right)
        } else {
            seq![e]
        },
        _ => seq![e],
    }
}

/// Whether every column that an expression reads is among `fields`.
pub open spec fn within(e: PlanExpr, fields: Seq<Seq<char>>) -> bool {
    forall|i: int| 0 <= i < expr_columns(e).len() ==> fields.contains(#[trigger] expr_columns(e)[i])
}

/// Where a conjunct of a filter above a join can go.
#[derive(Debug, Clone, Copy, PartialEq, Eq, Structural)]
pub enum Side {
    /// Onto the left input: it reads only the left input's fields.
    Left,
    /// Onto the right input: it reads only the right input's fields, and
    /// not only the left's.
    Right,
    /// Nowhere: it stays above the join.
    Neither,
}

pub open spec fn side_of(e: PlanExpr, left: Seq<Seq<char>>, right: Seq<Seq<char>>) -> Side {
    if within(e, left) {
        Side::Left
    } else if within(e, right) {
        Side::Right
    } else {
        Side::Neither
    }
}

/// The conjuncts that go to `side`, in order.
pub open spec fn on_side(cs: Seq<PlanExpr>, left: Seq<Seq<char>>, right: Seq<Seq<char>>, side: Side) -> Seq<PlanExpr>
    decreases cs.len(),
{
    if cs.len() == 0 {
        Seq::empty()
    } else if side_of(cs.last(), left, right) == side {
        on_side(cs.drop_last(), left, right, side).push(cs.last())
    } else {
        on_side(cs.drop_last(), left, right, side)
    }
}

/// The conjunction of predicates, joined from the left: `((p0 AND p1)
/// AND p2) ...`; the one predicate when there is one.
pub open spec fn and_all(s: Seq<PlanExpr>) -> PlanExpr
    decreases s.len(),
{
    if s.len() <= 1 {
        s[0]
    } else {
        PlanExpr::Binary { left: Box::new(and_all(s.drop_last())), op: BinaryOp::And, right: Box::new(s.last()) }
    }
}

/// A filter on `input` by the conjunction of `preds`, or `input` itself
/// when there are none.
pub open spec fn filtered(preds: Seq<PlanExpr>, input: Plan) -> Plan {
    if preds.len() == 0 {
        input
    } else {
        Plan::Filter(FilterNode { predicate: and_all(preds), input: Box::new(input) })
    }
}

/// A filter above a join, pushed into it: the conjuncts that read only one
/// input's fields become filters on that input, the rest stays above the
/// join; `None` when no conjunct can move.
pub open spec fn join_pushdown(predicate: PlanExpr, j: JoinNode) -> Option<Plan> {
    let cs = conjuncts(predicate);
    let l = plan_fields(*j.left);
    let r = plan_fields(*j.right);
    let lp = on_side(cs, l, r, Side::Left);
    let rp = on_side(cs, l, r, Side::Right);
    if lp.len() == 0 && rp.len() == 0 {
        None
    } else {
        Some(filtered(on_side(cs, l, r, Side::Neither), Plan::Join(JoinNode {
            left: Box::new(filtered(lp, *j.left)),
            right: Box::new(filtered(rp, *j.right)),
            on: j.on,
            filter: j.filter,
            join_type: j.join_type,
            fields: j.fields,
        })))
    }
}

/// A scan with `p` pushed into it: its predicate becomes `p`, or its
/// former predicate `AND p`.
pub open spec fn with_filter(s: TableScanNode, p: PlanExpr) -> TableScanNode {
    TableScanNode {
        table_name: s.table_name,
        table_fields: s.table_fields,
        projection: s.projection,
        projected_fields: s.projected_fields,
        filter: Some(match s.filter {
            None => p,
            Some(q) => PlanExpr::Binary { left: Box::new(q), op: BinaryOp::And, right: Box::new(p) },
        }),
    }
}

/// A scan without its pushed predicate: the table it reads, and how.
pub open spec fn unfiltered(s: TableScanNode) -> TableScanNode {
    TableScanNode {
        table_name: s.table_name,
        table_fields: s.table_fields,
        projection: s.projection,
        projected_fields: s.projected_fields,
        filter: None,
    }
}

/// One step of predicate pushdown on an operator: a filter on a scan whose
/// output fields hold every column the filter reads is pushed into the
/// scan, which then applies it; a filter on a join is pushed into it;
/// `None` when nothing changes.
pub open spec fn pushdown_step(node: Plan) -> Option<Plan> {
    match node {
        Plan::Filter(f) => match *f.input {
            Plan::TableScan(s) => if within(f.predicate, texts(s.projected_fields@)) {
                Some(Plan::TableScan(with_filter(s, f.predicate)))
            } else {
                None
            },
            Plan::Join(j) => join_pushdown(f.predicate, j),
            _ => None,
        },
        _ => None,
    }
}

/// Predicate pushdown applied to every operator, inputs first.
pub open spec fn pushdown_rewritten(p: Plan) -> Plan
    decreases p,
{
    let q = match p {
        Plan::TableScan(s) => Plan::TableScan(s),
        Plan::Filter(f) => Plan::Filter(FilterNode { predicate: f.predicate, input: Box::new(pushdown_rewritten(*f.input)) }),
        Plan::Projection(pr) => Plan::Projection(
            ProjectionNode { exprs: pr.exprs, fields: pr.fields, input: Box::new(pushdown_rewritten(*pr.input)) },
        ),
        Plan::Join(j) => Plan::Join(JoinNode {
            left: Box::new(pushdown_rewritten(*j.left)),
            right: Box::new(pushdown_rewritten(*j.right)),
            on: j.on,
            filter: j.filter,
            join_type: j.join_type,
            fields: j.fields,
        }),
        Plan::Aggregate { input, fields } => Plan::Aggregate { input: Box::new(pushdown_rewritten(*input)), fields },
        Plan::Sort { input } => Plan::Sort { input: Box::new(pushdown_rewritten(*input)) },
        Plan::Limit { input } => Plan::Limit { input: Box::new(pushdown_rewritten(*input)) },
        Plan::Extension { inputs, fields } => Plan::Extension { inputs: pushdown_rewritten_inputs(inputs), fields },
        Plan::Other { inputs, fields } => Plan::Other { inputs: pushdown_rewritten_inputs(inputs), fields },
    };
    match pushdown_step(q) {
        Some(n) => n,
        None => q,
    }
}

pub open spec fn pushdown_rewritten_inputs(l: PlanInputs) -> PlanInputs
    decreases l,
{
    match l {
        PlanInputs::End => PlanInputs::End,
        PlanInputs::Input { plan, rest } => PlanInputs::Input {
            plan: Box::new(pushdown_rewritten(*plan)),
            rest: Box::new(pushdown_rewritten_inputs(*rest)),
        },
    }
}

/// The conjuncts that go to each side, over two parts of a list, are those
/// of each part in turn.
proof fn lemma_on_side_concat(a: Seq<PlanExpr>, b: Seq<PlanExpr>, left: Seq<Seq<char>>, right: Seq<Seq<char>>, side: Side)
    ensures
        on_side(a + b, left, right, side) == on_side(a, left, right, side) + on_side(b, left, right, side),
    decreases b.len(),
{
    if b.len() == 0 {
        assert(a + b =~= a);
        assert(on_side(b, left, right, side) =~= Seq::<PlanExpr>::empty());
    } else {
        lemma_on_side_concat(a, b.drop_last(), left, right, side);
        assert((a + b).drop_last() =~= a + b.drop_last());
        assert((a + b).last() == b.last());
    }
}

impl PredicatePushdown {
    pub fn new() -> (o: Self)
        ensures
            o == (PredicatePushdown {}),
    {
        PredicatePushdown {}
    }

    /// The conjuncts of a predicate.
    pub fn split_conjunction(&self, expr: PlanExpr) -> (r: Vec<PlanExpr>)
        ensures
            r@ == conjuncts(expr),
        decreases expr,
    {
        match expr {
            PlanExpr::Binary { left, op, right } => {
                if op == BinaryOp::And {
                    let mut r = self.split_conjunction(*left);
                    let mut more = self.split_conjunction(*right);
                    r.append(&mut more);
                    r
                } else {
                    let mut r: Vec<PlanExpr> = Vec::new();
                    r.push(PlanExpr::Binary { left, op, right });
                    proof {
                        assert(r@ =~= seq![expr]);
                    }
                    r
                }
            },
            other => {
                let mut r: Vec<PlanExpr> = Vec::new();
                r.push(other);
                proof {
                    assert(r@ =~= seq![expr]);
                }
                r
            },
        }
    }

    /// Whether every column that an expression reads is among `fields`.
    fn reads_only(&self, e: &PlanExpr, fields: &Vec<String>) -> (b: bool)
        ensures
            b == within(*e, texts(fields@)),
    {
        let cols = expr_to_columns(e);
        all_listed(&cols, fields)
    }

    fn side(&self, e: &PlanExpr, left: &Vec<String>, right: &Vec<String>) -> (s: Side)
        ensures
            s == side_of(*e, texts(left@), texts(right@)),
    {
        if self.reads_only(e, left) {
            Side::Left
        } else if self.reads_only(e, right) {
            Side::Right
        } else {
            Side::Neither
        }
    }

    /// Whether some conjunct of a predicate can move onto an input.
    fn has_pushable(&self, e: &PlanExpr, left: &Vec<String>, right: &Vec<String>) -> (b: bool)
        ensures
            b == (on_side(conjuncts(*e), texts(left@), texts(right@), Side::Left).len() > 0
                || on_side(conjuncts(*e), texts(left@), texts(right@), Side::Right).len() > 0),
        decreases e,
    {
        let ghost (l, r) = (texts(left@), texts(right@));
        match e {
            PlanExpr::Binary { left: a, op, right: b } => {
                if *op == BinaryOp::And {
                    proof {
                        lemma_on_side_concat(conjuncts(**a), conjuncts(**b), l, r, Side::Left);
                        lemma_on_side_concat(conjuncts(**a), conjuncts(**b), l, r, Side::Right);
                    }
                    return self.has_pushable(a, left, right) || self.has_pushable(b, left, right);
                }
            },
            _ => {},
        }
        proof {
            assert(conjuncts(*e) =~= seq![*e]);
            assert(seq![*e].drop_last() =~= Seq::<PlanExpr>::empty());
            assert(seq![*e].last() == *e);
            assert(on_side(Seq::<PlanExpr>::empty(), l, r, Side::Left).len() == 0);
            assert(on_side(Seq::<PlanExpr>::empty(), l, r, Side::Right).len() == 0);
        }
        let s = self.side(e, left, right);
        s == Side::Left || s == Side::Right
    }

    /// The conjuncts of a predicate above a join, split by where they go:
    /// onto the left input, onto the right input, or nowhere.
    pub fn split_join_predicates(&self, predicate: PlanExpr, join: &JoinNode) -> (r: (Vec<PlanExpr>, Vec<PlanExpr>, Vec<PlanExpr>))
        ensures
            r.0@ == on_side(conjuncts(predicate), plan_fields(*join.left), plan_fields(*join.right), Side::Left),
            r.1@ == on_side(conjuncts(predicate), plan_fields(*join.left), plan_fields(*join.right), Side::Right),
            r.2@ == on_side(conjuncts(predicate), plan_fields(*join.left), plan_fields(*join.right), Side::Neither),
    {
        let left_fields = output_fields(&join.left);
        let right_fields = output_fields(&join.right);
        let ghost (l, r) = (texts(left_fields@), texts(right_fields@));
        let mut rest = self.split_conjunction(predicate);
        let ghost cs = rest@;
        let n = rest.len();
        assert(cs.len() == n);
        let mut lefts: Vec<PlanExpr> = Vec::new();
        let mut rights: Vec<PlanExpr> = Vec::new();
        let mut neither: Vec<PlanExpr> = Vec::new();
        let mut k: usize = 0;
        while rest.len() > 0
            invariant
                k + rest@.len() == cs.len(),
                cs.len() <= usize::MAX,
                rest@ == cs.subrange(k as int, cs.len() as int),
                lefts@ == on_side(cs.subrange(0, k as int), l, r, Side::Left),
                rights@ == on_side(cs.subrange(0, k as int), l, r, Side::Right),
                neither@ == on_side(cs.subrange(0, k as int), l, r, Side::Neither),
                l == texts(left_fields@),
                r == texts(right_fields@),
            decreases rest.len(),
        {
            let c = rest.remove(0);
            proof {
                assert(c == cs[k as int]);
                assert(cs.subrange(0, k + 1).drop_last() =~= cs.subrange(0, k as int));
                assert(cs.subrange(0, k + 1).last() == cs[k as int]);
                assert(rest@ =~= cs.subrange(k + 1, cs.len() as int));
            }
            let s = self.side(&c, left_fields, right_fields);
            if s == Side::Left {
                lefts.push(c);
            } else if s == Side::Right {
                rights.push(c);
            } else {
                neither.push(c);
            }
            k = k + 1;
        }
        proof {
            assert(cs.subrange(0, k as int) =~= cs);
        }
        (lefts, rights, neither)
    }

    /// Whether every column that a filter reads is among a scan's output
    /// fields.
    pub fn can_push_down_to_table_scan(&self, predicate: &PlanExpr, scan: &TableScanNode) -> (b: bool)
        ensures
            b == within(*predicate, texts(scan.projected_fields@)),
    {
        self.reads_only(predicate, &scan.projected_fields)
    }

    /// A filter on a scan, pushed into it: when the scan's output fields
    /// hold every column the filter reads, the scan with the filter's
    /// predicate added to its own; else the filter and the scan back,
    /// unchanged.
    pub fn push_down_to_table_scan(&self, predicate: PlanExpr, scan: TableScanNode) -> (r: Result<Plan, (PlanExpr, TableScanNode)>)
        ensures
            within(predicate, texts(scan.projected_fields@)) ==> r == Ok::<Plan, (PlanExpr, TableScanNode)>(Plan::TableScan(with_filter(scan, predicate))),
            !within(predicate, texts(scan.projected_fields@)) ==> r == Err::<Plan, (PlanExpr, TableScanNode)>((predicate, scan)),
    {
        if self.can_push_down_to_table_scan(&predicate, &scan) {
            let TableScanNode { table_name, table_fields, projection, projected_fields, filter } = scan;
            let filter = match filter {
                None => predicate,
                Some(q) => PlanExpr::Binary { left: Box::new(q), op: BinaryOp::And, right: Box::new(predicate) },
            };
            Ok(Plan::TableScan(TableScanNode { table_name, table_fields, projection, projected_fields, filter: Some(filter) }))
        } else {
            Err((predicate, scan))
        }
    }

    /// The conjunction of predicates, joined from the left.
    fn conjunction(&self, preds: Vec<PlanExpr>) -> (e: PlanExpr)
        requires
            preds@.len() > 0,
        ensures
            e == and_all(preds@),
        decreases preds@.len(),
    {
        let ghost all = preds@;
        let mut preds = preds;
        let last = preds.pop().unwrap();
        proof {
            assert(preds@ =~= all.drop_last());
        }
        if preds.len() == 0 {
            last
        } else {
            PlanExpr::Binary { left: Box::new(self.conjunction(preds)), op: BinaryOp::And, right: Box::new(last) }
        }
    }

    fn filter_on(&self, preds: Vec<PlanExpr>, input: Plan) -> (p: Plan)
        ensures
            p == filtered(preds@, input),
    {
        if preds.len() == 0 {
            input
        } else {
            Plan::Filter(FilterNode { predicate: self.conjunction(preds), input: Box::new(input) })
        }
    }

    /// A filter above a join, pushed into it; the filter and the join back,
    /// unchanged, when no conjunct can move.
    pub fn push_down_to_join(&self, predicate: PlanExpr, join: JoinNode) -> (r: Result<Plan, (PlanExpr, JoinNode)>)
        ensures
            match join_pushdown(predicate, join) {
                Some(p) => r == Ok::<Plan, (PlanExpr, JoinNode)>(p),
                None => r == Err::<Plan, (PlanExpr, JoinNode)>((predicate, join)),
            },
    {
        if !self.has_pushable(&predicate, output_fields(&join.left), output_fields(&join.right)) {
            return Err((predicate, join));
        }
        let (lefts, rights, neither) = self.split_join_predicates(predicate, &join);
        let JoinNode { left, right, on, filter, join_type, fields } = join;
        let new_left = self.filter_on(lefts, *left);
        let new_right = self.filter_on(rights, *right);
        let new_join = Plan::Join(JoinNode {
            left: Box::new(new_left),
            right: Box::new(new_right),
            on,
            filter,
            join_type,
            fields,
        });
        Ok(self.filter_on(neither, new_join))
    }

    /// One step of predicate pushdown on an operator, and whether it
    /// changed anything.
    pub fn f_up(&self, node: Plan) -> (r: (Plan, bool))
        ensures
            match pushdown_step(node) {
                Some(p) => r == (p, true),
                None => r == (node, false),
            },
    {
        match node {
            Plan::Filter(f) => {
                let FilterNode { predicate, input } = f;
                match *input {
                    Plan::TableScan(scan) => match self.push_down_to_table_scan(predicate, scan) {
                        Ok(p) => (p, true),
                        Err((predicate, scan)) => (Plan::Filter(FilterNode { predicate, input: Box::new(Plan::TableScan(scan)) }), false),
                    },
                    Plan::Join(join) => match self.push_down_to_join(predicate, join) {
                        Ok(p) => (p, true),
                        Err((predicate, join)) => (Plan::Filter(FilterNode { predicate, input: Box::new(Plan::Join(join)) }), false),
                    },
                    other => (Plan::Filter(FilterNode { predicate, input: Box::new(other) }), false),
                }
            },
            other => (other, false),
        }
    }

    fn rewrite(&self, plan: Plan) -> (r: Plan)
        ensures
            r == pushdown_rewritten(plan),
        decreases plan,
    {
        let q = match plan {
            Plan::TableScan(s) => Plan::TableScan(s),
            Plan::Filter(f) => {
                let FilterNode { predicate, input } = f;
                Plan::Filter(FilterNode { predicate, input: Box::new(self.rewrite(*input)) })
            },
            Plan::Projection(pr) => {
                let ProjectionNode { exprs, fields, input } = pr;
                Plan::Projection(ProjectionNode { exprs, fields, input: Box::new(self.rewrite(*input)) })
            },
            Plan::Join(j) => {
                let JoinNode { left, right, on, filter, join_type, fields } = j;
                let new_left = self.rewrite(*left);
                let new_right = self.rewrite(*right);
                Plan::Join(JoinNode { left: Box::new(new_left), right: Box::new(new_right), on, filter, join_type, fields })
            },
            Plan::Aggregate { input, fields } => Plan::Aggregate { input: Box::new(self.rewrite(*input)), fields },
            Plan::Sort { input } => Plan::Sort { input: Box::new(self.rewrite(*input)) },
            Plan::Limit { input } => Plan::Limit { input: Box::new(self.rewrite(*input)) },
            Plan::Extension { inputs, fields } => Plan::Extension { inputs: self.rewrite_inputs(inputs), fields },
            Plan::Other { inputs, fields } => Plan::Other { inputs: self.rewrite_inputs(inputs), fields },
        };
        self.f_up(q).0
    }

    fn rewrite_inputs(&self, l: PlanInputs) -> (r: PlanInputs)
        ensures
            r == pushdown_rewritten_inputs(l),
        decreases l,
    {
        match l {
            PlanInputs::End => PlanInputs::End,
            PlanInputs::Input { plan, rest } => {
                let new_plan = self.rewrite(*plan);
                let new_rest = self.rewrite_inputs(*rest);
                PlanInputs::Input { plan: Box::new(new_plan), rest: Box::new(new_rest) }
            },
        }
    }

    /// Predicate pushdown applied to every operator of a plan, inputs first.
    pub fn optimize(&self, plan: Plan) -> (r: Plan)
        ensures
            r == pushdown_rewritten(plan),
    {
        self.rewrite(plan)
    }
}

/// Whether the positions that a scan reads are positions of its table's
/// fields.
pub open spec fn scan_ok(s: TableScanNode) -> bool {
    match s.projection {
        Some(v) => forall|i: int| 0 <= i < v@.len() ==> #[trigger] v@[i] < s.table_fields@.len(),
        None => true,
    }
}

/// Whether every scan of a plan reads positions of its table's fields.
pub open spec fn scans_ok(p: Plan) -> bool
    decreases p,
{
    match p {
        Plan::TableScan(s) => scan_ok(s),
        Plan::Filter(f) => scans_ok(*f.input),
        Plan::Projection(pr) => scans_ok(*pr.input),
        Plan::Join(j) => scans_ok(*j.left) && scans_ok(*j.right),
        Plan::Aggregate { input, .. } => scans_ok(*input),
        Plan::Sort { input } => scans_ok(*input),
        Plan::Limit { input } => scans_ok(*input),
        Plan::Extension { inputs, .. } => inputs_ok(inputs),
        Plan::Other { inputs, .. } => inputs_ok(inputs),
    }
}

pub open spec fn inputs_ok(l: PlanInputs) -> bool
    decreases l,
{
    match l {
        PlanInputs::End => true,
        PlanInputs::Input { plan, rest } => scans_ok(*plan) && inputs_ok(*rest),
    }
}

/// The columns that the pairs of a join's condition read, in order.
pub open spec fn on_columns(on: Seq<(PlanExpr, PlanExpr)>) -> Seq<Seq<char>>
    decreases on.len(),
{
    if on.len() == 0 {
        Seq::empty()
    } else {
        on_columns(on.drop_last()) + expr_columns(on.last().0) + expr_columns(on.last().1)
    }
}

/// The positions of `ps`, in order, whose table field is required.
pub open spec fn kept_positions(ps: Seq<usize>, table_fields: Seq<Seq<char>>, required: Seq<Seq<char>>) -> Seq<usize>
    decreases ps.len(),
{
    if ps.len() == 0 {
        Seq::empty()
    } else if required.contains(table_fields[ps.last() as int]) {
        kept_positions(ps.drop_last(), table_fields, required).push(ps.last())
    } else {
        kept_positions(ps.drop_last(), table_fields, required)
    }
}

/// The positions of the fields that a scan reads.
pub open spec fn scan_positions(s: TableScanNode) -> Seq<usize> {
    match s.projection {
        Some(v) => v@,
        None => Seq::new(s.table_fields@.len(), |i: int| i as usize),
    }
}

/// `t` is the scan `s` narrowed to the positions it reads whose field is
/// required; nothing else about it changes.
pub open spec fn narrowed_scan(s: TableScanNode, required: Seq<Seq<char>>, t: TableScanNode) -> bool {
    &&& t.table_name == s.table_name
    &&& t.table_fields == s.table_fields
    &&& t.projected_fields == s.projected_fields
    &&& t.filter == s.filter
    &&& t.projection matches Some(v)
    &&& v@ == kept_positions(scan_positions(s), texts(s.table_fields@), required)
}

/// Whether some of `fields` is not required, so that an input with these
/// fields gets a projection of its own.
pub open spec fn needs_trim(fields: Seq<Seq<char>>, required: Seq<Seq<char>>) -> bool {
    exists|i: int| 0 <= i < fields.len() && !required.contains(#[trigger] fields[i])
}

/// The expressions are the columns named `names`, in order.
pub open spec fn column_exprs(exprs: Seq<PlanExpr>, names: Seq<Seq<char>>) -> bool {
    exprs.len() == names.len() && forall|i: int| 0 <= i < names.len() ==> (#[trigger] exprs[i] matches PlanExpr::Column(n) && n@ == names[i])
}

/// `out` is an input with `fields` as a join below a projection that needs
/// only `required` sees it: when some field is not required, a projection
/// onto the required fields, each once, in some order.
pub open spec fn trimmed(out: Plan, fields: Seq<Seq<char>>, required: Seq<Seq<char>>) -> bool {
    needs_trim(fields, required) ==> (out matches Plan::Projection(p) && texts(p.fields@).no_duplicates()
        && (forall|c: Seq<char>| texts(p.fields@).contains(c) <==> (fields.contains(c) && required.contains(c)))
        && column_exprs(p.exprs@, texts(p.fields@)))
}

/// What `out` holds below the projection that trimming may have added.
pub open spec fn below_trim(out: Plan, fields: Seq<Seq<char>>, required: Seq<Seq<char>>) -> Plan {
    if needs_trim(fields, required) {
        match out {
            Plan::Projection(p) => *p.input,
            _ => out,
        }
    } else {
        out
    }
}

/// `r` is the projection of `exprs` as `fields` pushed into the scan `s`.
pub open spec fn scan_projected(exprs: Vec<PlanExpr>, fields: Vec<String>, s: TableScanNode, r: Plan) -> bool {
    &&& r matches Plan::Projection(p)
    &&& p.exprs == exprs
    &&& p.fields == fields
    &&& *p.input matches Plan::TableScan(t)
    &&& narrowed_scan(s, all_columns(exprs@), t)
}

/// The columns that a projection above a join needs: those its
/// expressions read and those of the join's condition.
pub open spec fn join_required(exprs: Vec<PlanExpr>, j: JoinNode) -> Seq<Seq<char>> {
    all_columns(exprs@) + on_columns(j.on@)
}

/// The join below the projection `r`.
pub open spec fn join_below(r: Plan) -> JoinNode {
    (*r->Projection_0.input)->Join_0
}

/// `r` is the projection of `exprs` as `fields` pushed into the join `j`:
/// the projection stays above the join, and each input of the join that
/// has a field the projection and the join's condition do not need gets a
/// projection onto the fields they need.
pub open spec fn join_projected(exprs: Vec<PlanExpr>, fields: Vec<String>, j: JoinNode, r: Plan) -> bool {
    let req = join_required(exprs, j);
    &&& r matches Plan::Projection(p)
    &&& p.exprs == exprs
    &&& p.fields == fields
    &&& *p.input matches Plan::Join(k)
    &&& k.on == j.on
    &&& k.filter == j.filter
    &&& k.join_type == j.join_type
    &&& k.fields == j.fields
    &&& trimmed(*k.left, plan_fields(*j.left), req)
    &&& trimmed(*k.right, plan_fields(*j.right), req)
}

/// One step of projection pushdown on an operator: a projection on a scan
/// is pushed into the scan, a projection on a join into the join; any
/// other operator stays as it is.
pub open spec fn projection_step(node: Plan, r: (Plan, bool)) -> bool {
    match node {
        Plan::Projection(pr) => match *pr.input {
            Plan::TableScan(s) => r.1 && scan_projected(pr.exprs, pr.fields, s, r.0),
            Plan::Join(j) => {
                let req = join_required(pr.exprs, j);
                &&& r.1
                &&& join_projected(pr.exprs, pr.fields, j, r.0)
                &&& below_trim(*join_below(r.0).left, plan_fields(*j.left), req) == *j.left
                &&& below_trim(*join_below(r.0).right, plan_fields(*j.right), req) == *j.right
            },
            _ => r == (node, false),
        },
        _ => r == (node, false),
    }
}

/// `r` is projection pushdown applied to every operator of `p`, inputs
/// first.
pub open spec fn projection_rewritten(p: Plan, r: Plan) -> bool
    decreases p,
{
    match p {
        Plan::TableScan(s) => r == Plan::TableScan(s),
        Plan::Filter(f) => (r matches Plan::Filter(g) && g.predicate == f.predicate && projection_rewritten(*f.input, *g.input)),
        Plan::Projection(pr) => match *pr.input {
            Plan::TableScan(s) => scan_projected(pr.exprs, pr.fields, s, r),
            Plan::Join(j) => {
                let req = join_required(pr.exprs, j);
                &&& join_projected(pr.exprs, pr.fields, j, r)
                &&& projection_rewritten(*j.left, below_trim(*join_below(r).left, plan_fields(*j.left), req))
                &&& projection_rewritten(*j.right, below_trim(*join_below(r).right, plan_fields(*j.right), req))
            },
            _ => (r matches Plan::Projection(q) && q.exprs == pr.exprs && q.fields == pr.fields
                && projection_rewritten(*pr.input, *q.input)),
        },
        Plan::Join(j) => (r matches Plan::Join(k) && k.on == j.on && k.filter == j.filter && k.join_type == j.join_type
            && k.fields == j.fields && projection_rewritten(*j.left, *k.left) && projection_rewritten(*j.right, *k.right)),
        Plan::Aggregate { input, fields } => (r matches Plan::Aggregate { input: i2, fields: f2 } && f2 == fields
            && projection_rewritten(*input, *i2)),
        Plan::Sort { input } => (r matches Plan::Sort { input: i2 } && projection_rewritten(*input, *i2)),
        Plan::Limit { input } => (r matches Plan::Limit { input: i2 } && projection_rewritten(*input, *i2)),
        Plan::Extension { inputs, fields } => (r matches Plan::Extension { inputs: i2, fields: f2 } && f2 == fields
            && projection_rewritten_inputs(inputs, i2)),
        Plan::Other { inputs, fields } => (r matches Plan::Other { inputs: i2, fields: f2 } && f2 == fields
            && projection_rewritten_inputs(inputs, i2)),
    }
}

pub open spec fn projection_rewritten_inputs(l: PlanInputs, r: PlanInputs) -> bool
    decreases l,
{
    match l {
        PlanInputs::End => r == PlanInputs::End,
        PlanInputs::Input { plan, rest } => (r matches PlanInputs::Input { plan: p2, rest: r2 }
            && projection_rewritten(*plan, *p2) && projection_rewritten_inputs(*rest, *r2)),
    }
}

/// Projection pushdown keeps the fields that a plan outputs.
pub proof fn lemma_projection_pushdown_keeps_fields(p: Plan, r: Plan)
    requires
        projection_rewritten(p, r),
    ensures
        plan_fields(r) == plan_fields(p),
    decreases p,
{
    match p {
        Plan::Filter(f) => {
            lemma_projection_pushdown_keeps_fields(*f.input, *r->Filter_0.input);
        },
        Plan::Sort { input } => {
            lemma_projection_pushdown_keeps_fields(*input, *r->Sort_input);
        },
        Plan::Limit { input } => {
            lemma_projection_pushdown_keeps_fields(*input, *r->Limit_input);
        },
        _ => {},
    }
}

/// Projection pushdown gives a scan only for that scan.
proof fn lemma_scan_stays(p: Plan, r: Plan)
    requires
        projection_rewritten(p, r),
        r is TableScan,
    ensures
        p == r,
{
    match p {
        Plan::Projection(pr) => {
            match *pr.input {
                Plan::TableScan(_) => {},
                Plan::Join(_) => {},
                _ => {},
            }
        },
        _ => {},
    }
}

/// The columns that a list of expressions reads.
fn columns_of_all(exprs: &Vec<PlanExpr>) -> (r: Vec<String>)
    ensures
        texts(r@) == all_columns(exprs@),
{
    let mut r: Vec<String> = Vec::new();
    let mut i: usize = 0;
    while i < exprs.len()
        invariant
            0 <= i <= exprs@.len(),
            texts(r@) == all_columns(exprs@.subrange(0, i as int)),
        decreases exprs.len() - i,
    {
        proof {
            assert(exprs@.subrange(0, i + 1).drop_last() =~= exprs@.subrange(0, i as int));
        }
        let mut more = expr_to_columns(&exprs[i]);
        let ghost (a, b) = (r@, more@);
        r.append(&mut more);
        proof {
            assert(texts(r@) =~= texts(a) + texts(b));
        }
        i = i + 1;
    }
    proof {
        assert(exprs@.subrange(0, exprs@.len() as int) =~= exprs@);
    }
    r
}

/// The columns that the pairs of a join's condition read.
fn columns_of_on(on: &Vec<(PlanExpr, PlanExpr)>) -> (r: Vec<String>)
    ensures
        texts(r@) == on_columns(on@),
{
    let mut r: Vec<String> = Vec::new();
    let mut i: usize = 0;
    while i < on.len()
        invariant
            0 <= i <= on@.len(),
            texts(r@) == on_columns(on@.subrange(0, i as int)),
        decreases on.len() - i,
    {
        proof {
            assert(on@.subrange(0, i + 1).drop_last() =~= on@.subrange(0, i as int));
        }
        let pair = &on[i];
        let mut a_cols = expr_to_columns(&pair.0);
        let mut b_cols = expr_to_columns(&pair.1);
        let ghost (x, a, b) = (r@, a_cols@, b_cols@);
        r.append(&mut a_cols);
        r.append(&mut b_cols);
        proof {
            assert(texts(r@) =~= texts(x) + texts(a) + texts(b));
        }
        i = i + 1;
    }
    proof {
        assert(on@.subrange(0, on@.len() as int) =~= on@);
    }
    r
}

/// The positions of `ps`, in order, whose table field is required.
fn keep_positions(ps: &Vec<usize>, table_fields: &Vec<String>, required: &Vec<String>) -> (r: Vec<usize>)
    requires
        forall|i: int| 0 <= i < ps@.len() ==> #[trigger] ps@[i] < table_fields@.len(),
    ensures
        r@ == kept_positions(ps@, texts(table_fields@), texts(required@)),
{
    let mut r: Vec<usize> = Vec::new();
    let mut i: usize = 0;
    while i < ps.len()
        invariant
            0 <= i <= ps@.len(),
            forall|j: int| 0 <= j < ps@.len() ==> #[trigger] ps@[j] < table_fields@.len(),
            r@ == kept_positions(ps@.subrange(0, i as int), texts(table_fields@), texts(required@)),
        decreases ps.len() - i,
    {
        proof {
            assert(ps@.subrange(0, i + 1).drop_last() =~= ps@.subrange(0, i as int));
            assert(ps@.subrange(0, i + 1).last() == ps@[i as int]);
        }
        let idx = ps[i];
        assert(idx < table_fields@.len());
        proof {
            assert(texts(table_fields@)[idx as int] == table_fields@[idx as int]@);
        }
        if listed(required, table_fields[idx].as_str()) {
            r.push(idx);
        }
        i = i + 1;
    }
    proof {
        assert(ps@.subrange(0, ps@.len() as int) =~= ps@);
    }
    r
}

/// The positions `0 .. n`.
fn positions_upto(n: usize) -> (r: Vec<usize>)
    ensures
        r@ == Seq::new(n as nat, |i: int| i as usize),
{
    let mut r: Vec<usize> = Vec::new();
    let mut i: usize = 0;
    while i < n
        invariant
            0 <= i <= n,
            r@ == Seq::new(i as nat, |k: int| k as usize),
        decreases n - i,
    {
        r.push(i);
        proof {
            assert(r@ =~= Seq::new((i + 1) as nat, |k: int| k as usize));
        }
        i = i + 1;
    }
    r
}

/// Whether some of `fields` is not among `required`.
fn some_not_required(fields: &Vec<String>, required: &Vec<String>) -> (b: bool)
    ensures
        b == needs_trim(texts(fields@), texts(required@)),
{
    let mut i: usize = 0;
    while i < fields.len()
        invariant
            0 <= i <= fields@.len(),
            forall|j: int| 0 <= j < i ==> texts(required@).contains(#[trigger] texts(fields@)[j]),
        decreases fields.len() - i,
    {
        proof {
            assert(texts(fields@)[i as int] == fields@[i as int]@);
        }
        if !listed(required, fields[i].as_str()) {
            return true;
        }
        i = i + 1;
    }
    false
}

/// The fields of `fields` that are required, each once, in the order of
/// `fields`.
fn required_fields(fields: &Vec<String>, required: &Vec<String>) -> (names: Vec<String>)
    ensures
        texts(names@).no_duplicates(),
        forall|c: Seq<char>| texts(names@).contains(c) <==> (texts(fields@).contains(c) && texts(required@).contains(c)),
{
    let mut names: Vec<String> = Vec::new();
    let mut i: usize = 0;
    while i < fields.len()
        invariant
            0 <= i <= fields@.len(),
            texts(names@).no_duplicates(),
            forall|c: Seq<char>| texts(names@).contains(c) <==> (texts(fields@).subrange(0, i as int).contains(c)
                && texts(required@).contains(c)),
        decreases fields.len() - i,
    {
        let ghost before = names@;
        proof {
            assert(texts(fields@).subrange(0, i + 1) =~= texts(fields@).subrange(0, i as int).push(fields@[i as int]@));
        }
        let ghost x = fields@[i as int]@;
        let ghost prefix = texts(fields@).subrange(0, i as int);
        if listed(required, fields[i].as_str()) && !listed(&names, fields[i].as_str()) {
            names.push(copy_string(&fields[i]));
            proof {
                assert(texts(names@) =~= texts(before).push(x));
                assert forall|c: Seq<char>| texts(names@).contains(c) <==> (prefix.push(x).contains(c)
                    && texts(required@).contains(c)) by {
                    if c == x {
                        assert(texts(names@)[texts(before).len() as int] == x);
                        assert(prefix.push(x)[prefix.len() as int] == x);
                    } else {
                        if texts(names@).contains(c) {
                            let k = choose|k: int| 0 <= k < texts(names@).len() && texts(names@)[k] == c;
                            assert(texts(before)[k] == c);
                        }
                        if prefix.push(x).contains(c) {
                            let k = choose|k: int| 0 <= k < prefix.push(x).len() && prefix.push(x)[k] == c;
                            assert(prefix[k] == c);
                        }
                        if prefix.contains(c) {
                            let k = choose|k: int| 0 <= k < prefix.len() && prefix[k] == c;
                            assert(prefix.push(x)[k] == c);
                        }
                        if texts(before).contains(c) {
                            let k = choose|k: int| 0 <= k < texts(before).len() && texts(before)[k] == c;
                            assert(texts(names@)[k] == c);
                        }
                    }
                }
            }
        } else {
            proof {
                assert forall|c: Seq<char>| texts(names@).contains(c) <==> (prefix.push(x).contains(c)
                    && texts(required@).contains(c)) by {
                    if c == x {
                        assert(prefix.push(x)[prefix.len() as int] == x);
                    } else {
                        if prefix.push(x).contains(c) {
                            let k = choose|k: int| 0 <= k < prefix.push(x).len() && prefix.push(x)[k] == c;
                            assert(prefix[k] == c);
                        }
                        if prefix.contains(c) {
                            let k = choose|k: int| 0 <= k < prefix.len() && prefix[k] == c;
                            assert(prefix.push(x)[k] == c);
                        }
                    }
                }
            }
        }
        i = i + 1;
    }
    proof {
        assert(texts(fields@).subrange(0, fields@.len() as int) =~= texts(fields@));
    }
    names
}

/// The columns named `names`, in order.
fn columns_named(names: &Vec<String>) -> (r: Vec<PlanExpr>)
    ensures
        column_exprs(r@, texts(names@)),
{
    let mut r: Vec<PlanExpr> = Vec::new();
    let mut i: usize = 0;
    while i < names.len()
        invariant
            0 <= i <= names@.len(),
            r@.len() == i,
            forall|j: int| 0 <= j < i ==> (#[trigger] r@[j] matches PlanExpr::Column(n) && n@ == names@[j]@),
        decreases names.len() - i,
    {
        r.push(PlanExpr::Column(copy_string(&names[i])));
        i = i + 1;
    }
    proof {
        assert forall|j: int| 0 <= j < texts(names@).len() implies (#[trigger] r@[j] matches PlanExpr::Column(n)
            && n@ == texts(names@)[j]) by {
            assert(texts(names@)[j] == names@[j]@);
        }
    }
    r
}

impl ProjectionPushdown {
    pub fn new() -> (o: Self)
        ensures
            o == (ProjectionPushdown {}),
    {
        ProjectionPushdown {}
    }

    /// A projection of `exprs` as `fields` on a scan, pushed into the scan:
    /// the scan reads only the positions it read whose field the
    /// expressions read, and the projection stays above it.
    pub fn push_down_to_table_scan(&self, exprs: Vec<PlanExpr>, fields: Vec<String>, scan: TableScanNode) -> (r: Plan)
        requires
            scan_ok(scan),
        ensures
            scan_projected(exprs, fields, scan, r),
    {
        let required = columns_of_all(&exprs);
        let positions = match &scan.projection {
            Some(existing) => keep_positions(existing, &scan.table_fields, &required),
            None => {
                let all = positions_upto(scan.table_fields.len());
                keep_positions(&all, &scan.table_fields, &required)
            },
        };
        let TableScanNode { table_name, table_fields, projection: _, projected_fields, filter } = scan;
        let narrowed = TableScanNode { table_name, table_fields, projection: Some(positions), projected_fields, filter };
        Plan::Projection(ProjectionNode { exprs, fields, input: Box::new(Plan::TableScan(narrowed)) })
    }

    /// An input of a join, below a projection onto the required fields
    /// when some of its fields is not required.
    fn narrow(&self, input: Plan, required: &Vec<String>) -> (r: Plan)
        ensures
            trimmed(r, plan_fields(input), texts(required@)),
            below_trim(r, plan_fields(input), texts(required@)) == input,
    {
        let fs = output_fields(&input);
        if some_not_required(fs, required) {
            let names = required_fields(fs, required);
            let exprs = columns_named(&names);
            Plan::Projection(ProjectionNode { exprs, fields: names, input: Box::new(input) })
        } else {
            input
        }
    }

    /// A projection of `exprs` as `fields` on a join, pushed into the join:
    /// each input of the join that has a field that neither the
    /// expressions nor the join's condition read gets a projection onto
    /// the fields they read, and the projection stays above the join.
    pub fn push_down_to_join(&self, exprs: Vec<PlanExpr>, fields: Vec<String>, join: JoinNode) -> (r: Plan)
        ensures
            join_projected(exprs, fields, join, r),
            below_trim(*join_below(r).left, plan_fields(*join.left), join_required(exprs, join)) == *join.left,
            below_trim(*join_below(r).right, plan_fields(*join.right), join_required(exprs, join)) == *join.right,
    {
        let mut required = columns_of_all(&exprs);
        let mut on_cols = columns_of_on(&join.on);
        let ghost (a, b) = (required@, on_cols@);
        required.append(&mut on_cols);
        proof {
            assert(texts(required@) =~= texts(a) + texts(b));
        }
        let JoinNode { left, right, on, filter, join_type, fields: join_fields } = join;
        let new_left = self.narrow(*left, &required);
        let new_right = self.narrow(*right, &required);
        let new_join = JoinNode { left: Box::new(new_left), right: Box::new(new_right), on, filter, join_type, fields: join_fields };
        Plan::Projection(ProjectionNode { exprs, fields, input: Box::new(Plan::Join(new_join)) })
    }

    /// One step of projection pushdown on an operator, and whether it
    /// changed anything.
    pub fn f_up(&self, node: Plan) -> (r: (Plan, bool))
        requires
            node matches Plan::Projection(pr) ==> (*pr.input matches Plan::TableScan(s) ==> scan_ok(s)),
        ensures
            projection_step(node, r),
    {
        match node {
            Plan::Projection(pr) => {
                let ProjectionNode { exprs, fields, input } = pr;
                match *input {
                    Plan::TableScan(scan) => (self.push_down_to_table_scan(exprs, fields, scan), true),
                    Plan::Join(join) => (self.push_down_to_join(exprs, fields, join), true),
                    other => (Plan::Projection(ProjectionNode { exprs, fields, input: Box::new(other) }), false),
                }
            },
            other => (other, false),
        }
    }

    fn rewrite(&self, plan: Plan) -> (r: Plan)
        requires
            scans_ok(plan),
        ensures
            projection_rewritten(plan, r),
        decreases plan,
    {
        match plan {
            Plan::TableScan(s) => Plan::TableScan(s),
            Plan::Filter(f) => {
                let FilterNode { predicate, input } = f;
                Plan::Filter(FilterNode { predicate, input: Box::new(self.rewrite(*input)) })
            },
            Plan::Projection(pr) => {
                let ProjectionNode { exprs, fields, input } = pr;
                let ghost orig = *input;
                let child = self.rewrite(*input);
                match child {
                    Plan::TableScan(scan) => {
                        proof {
                            lemma_scan_stays(orig, Plan::TableScan(scan));
                            assert(scans_ok(orig));
                            assert(orig == Plan::TableScan(scan));
                        }
                        self.push_down_to_table_scan(exprs, fields, scan)
                    },
                    Plan::Join(join) => {
                        proof {
                            lemma_projection_pushdown_keeps_fields(*orig->Join_0.left, *join.left);
                            lemma_projection_pushdown_keeps_fields(*orig->Join_0.right, *join.right);
                        }
                        self.push_down_to_join(exprs, fields, join)
                    },
                    other => Plan::Projection(ProjectionNode { exprs, fields, input: Box::new(other) }),
                }
            },
            Plan::Join(j) => {
                let JoinNode { left, right, on, filter, join_type, fields } = j;
                let new_left = self.rewrite(*left);
                let new_right = self.rewrite(*right);
                Plan::Join(JoinNode { left: Box::new(new_left), right: Box::new(new_right), on, filter, join_type, fields })
            },
            Plan::Aggregate { input, fields } => Plan::Aggregate { input: Box::new(self.rewrite(*input)), fields },
            Plan::Sort { input } => Plan::Sort { input: Box::new(self.rewrite(*input)) },
            Plan::Limit { input } => Plan::Limit { input: Box::new(self.rewrite(*input)) },
            Plan::Extension { inputs, fields } => Plan::Extension { inputs: self.rewrite_inputs(inputs), fields },
            Plan::Other { inputs, fields } => Plan::Other { inputs: self.rewrite_inputs(inputs), fields },
        }
    }

    fn rewrite_inputs(&self, l: PlanInputs) -> (r: PlanInputs)
        requires
            inputs_ok(l),
        ensures
            projection_rewritten_inputs(l, r),
        decreases l,
    {
        match l {
            PlanInputs::End => PlanInputs::End,
            PlanInputs::Input { plan, rest } => {
                let new_plan = self.rewrite(*plan);
                let new_rest = self.rewrite_inputs(*rest);
                PlanInputs::Input { plan: Box::new(new_plan), rest: Box::new(new_rest) }
            },
        }
    }

    /// Projection pushdown applied to every operator of a plan, inputs
    /// first.
    pub fn optimize(&self, plan: Plan) -> (r: Plan)
        requires
            scans_ok(plan),
        ensures
            projection_rewritten(plan, r),
    {
        self.rewrite(plan)
    }
}

/// Predicate pushdown keeps every scan reading positions of its table's
/// fields.
proof fn lemma_pushdown_keeps_scans_ok(p: Plan)
    requires
        scans_ok(p),
    ensures
        scans_ok(pushdown_rewritten(p)),
    decreases p,
{
    match p {
        Plan::TableScan(_) => {},
        Plan::Filter(f) => {
            lemma_pushdown_keeps_scans_ok(*f.input);
            let c = pushdown_rewritten(*f.input);
            let q = Plan::Filter(FilterNode { predicate: f.predicate, input: Box::new(c) });
            assert(pushdown_rewritten(p) == (match pushdown_step(q) {
                Some(n) => n,
                None => q,
            }));
            match c {
                Plan::Join(j) => {
                    let cs = conjuncts(f.predicate);
                    let l = plan_fields(*j.left);
                    let r = plan_fields(*j.right);
                    let new_join = Plan::Join(JoinNode {
                        left: Box::new(filtered(on_side(cs, l, r, Side::Left), *j.left)),
                        right: Box::new(filtered(on_side(cs, l, r, Side::Right), *j.right)),
                        on: j.on,
                        filter: j.filter,
                        join_type: j.join_type,
                        fields: j.fields,
                    });
                    assert(scans_ok(filtered(on_side(cs, l, r, Side::Left), *j.left)));
                    assert(scans_ok(filtered(on_side(cs, l, r, Side::Right), *j.right)));
                    assert(scans_ok(new_join));
                    assert(scans_ok(filtered(on_side(cs, l, r, Side::Neither), new_join)));
                },
                _ => {},
            }
        },
        Plan::Projection(pr) => {
            lemma_pushdown_keeps_scans_ok(*pr.input);
        },
        Plan::Join(j) => {
            lemma_pushdown_keeps_scans_ok(*j.left);
            lemma_pushdown_keeps_scans_ok(*j.right);
        },
        Plan::Aggregate { input, .. } => {
            lemma_pushdown_keeps_scans_ok(*input);
        },
        Plan::Sort { input } => {
            lemma_pushdown_keeps_scans_ok(*input);
        },
        Plan::Limit { input } => {
            lemma_pushdown_keeps_scans_ok(*input);
        },
        Plan::Extension { inputs, .. } => {
            lemma_pushdown_inputs_ok(inputs);
        },
        Plan::Other { inputs, .. } => {
            lemma_pushdown_inputs_ok(inputs);
        },
    }
}

proof fn lemma_pushdown_inputs_ok(l: PlanInputs)
    requires
        inputs_ok(l),
    ensures
        inputs_ok(pushdown_rewritten_inputs(l)),
    decreases l,
{
    match l {
        PlanInputs::End => {},
        PlanInputs::Input { plan, rest } => {
            lemma_pushdown_keeps_scans_ok(*plan);
            lemma_pushdown_inputs_ok(*rest);
        },
    }
}

/// One of the optimizers that a combined optimizer applies.
#[derive(Debug, Clone, Copy, PartialEq, Eq, Structural)]
pub enum OptimizerKind {
    JoinRewriter,
    JoinOptimizer,
    PredicatePushdown,
    ProjectionPushdown,
}

/// The optimizers in the order a combined optimizer applies them.
pub open spec fn standard_optimizers() -> Seq<OptimizerKind> {
    seq![
        OptimizerKind::JoinRewriter,
        OptimizerKind::JoinOptimizer,
        OptimizerKind::PredicatePushdown,
        OptimizerKind::ProjectionPushdown,
    ]
}

/// Applies the join rewriter, the join optimizer, predicate pushdown and
/// projection pushdown, in this order.
#[derive(Debug)]
pub struct CombinedOptimizer {
    optimizers: Vec<OptimizerKind>,
}

impl CombinedOptimizer {
    #[verifier::type_invariant]
    spec fn applies_standard(&self) -> bool {
        self.optimizers@ == standard_optimizers()
    }

    /// The optimizers, in the order they are applied.
    pub closed spec fn kinds(&self) -> Seq<OptimizerKind> {
        self.optimizers@
    }

    pub fn new() -> (o: Self)
        ensures
            o.kinds() == standard_optimizers(),
    {
        let mut optimizers: Vec<OptimizerKind> = Vec::new();
        optimizers.push(OptimizerKind::JoinRewriter);
        optimizers.push(OptimizerKind::JoinOptimizer);
        optimizers.push(OptimizerKind::PredicatePushdown);
        optimizers.push(OptimizerKind::ProjectionPushdown);
        proof {
            assert(optimizers@ =~= standard_optimizers());
        }
        CombinedOptimizer { optimizers }
    }

    /// The optimizers, in the order they are applied.
    pub fn optimizers(&self) -> (r: &Vec<OptimizerKind>)
        ensures
            r@ == self.kinds(),
    {
        &self.optimizers
    }

    /// Applies each optimizer in turn: the join rewriter and the join
    /// optimizer leave the plan as it is, then predicate pushdown and
    /// projection pushdown rewrite it.
    pub fn optimize(&self, plan: Plan) -> (r: Plan)
        requires
            scans_ok(plan),
        ensures
            projection_rewritten(pushdown_rewritten(plan), r),
    {
        proof {
            use_type_invariant(self);
            lemma_pushdown_keeps_scans_ok(plan);
        }
        let ghost original = plan;
        let mut current = plan;
        let mut i: usize = 0;
        while i < self.optimizers.len()
            invariant
                0 <= i <= 4,
                self.optimizers@ == standard_optimizers(),
                scans_ok(original),
                scans_ok(pushdown_rewritten(original)),
                i <= 2 ==> current == original,
                i == 3 ==> current == pushdown_rewritten(original),
                i == 4 ==> projection_rewritten(pushdown_rewritten(original), current),
            decreases self.optimizers.len() - i,
        {
            current = match self.optimizers[i] {
                OptimizerKind::JoinRewriter => JoinRewriter {}.optimize(current),
                OptimizerKind::JoinOptimizer => JoinOptimizer {}.optimize(current),
                OptimizerKind::PredicatePushdown => PredicatePushdown {}.optimize(current),
                OptimizerKind::ProjectionPushdown => ProjectionPushdown {}.optimize(current),
            };
            i = i + 1;
        }
        current
    }
}

/// Whether an expression is a conjunction.
pub open spec fn is_conjunction(e: PlanExpr) -> bool {
    e matches PlanExpr::Binary { op, .. } && op == BinaryOp::And
}

/// No conjunct of a predicate is itself a conjunction.
proof fn lemma_conjuncts_are_not_conjunctions(e: PlanExpr)
    ensures
        forall|i: int| 0 <= i < conjuncts(e).len() ==> !is_conjunction(#[trigger] conjuncts(e)[i]),
    decreases e,
{
    match e {
        PlanExpr::Binary { left, op, right } => {
            if op == BinaryOp::And {
                lemma_conjuncts_are_not_conjunctions(*left);
                lemma_conjuncts_are_not_conjunctions(*right);
                let (a, b) = (conjuncts(*left), conjuncts(*right));
                assert forall|i: int| 0 <= i < conjuncts(e).len() implies !is_conjunction(#[trigger] conjuncts(e)[i]) by {
                    if i < a.len() {
                        assert(conjuncts(e)[i] == a[i]);
                    } else {
                        assert(conjuncts(e)[i] == b[i - a.len()]);
                    }
                }
            }
        },
        _ => {},
    }
}

/// The conjuncts of a conjunction joined from the left out of parts that
/// are not conjunctions are those parts.
proof fn lemma_and_all_conjuncts(s: Seq<PlanExpr>)
    requires
        s.len() > 0,
        forall|i: int| 0 <= i < s.len() ==> !is_conjunction(#[trigger] s[i]),
    ensures
        conjuncts(and_all(s)) == s,
    decreases s.len(),
{
    if s.len() == 1 {
        assert(conjuncts(s[0]) =~= seq![s[0]]);
        assert(s =~= seq![s[0]]);
    } else {
        let d = s.drop_last();
        assert forall|i: int| 0 <= i < d.len() implies !is_conjunction(#[trigger] d[i]) by {
            assert(d[i] == s[i]);
        }
        lemma_and_all_conjuncts(d);
        assert(!is_conjunction(s.last()));
        assert(conjuncts(s.last()) =~= seq![s.last()]);
        assert(d + seq![s.last()] =~= s);
    }
}

/// What goes to a side is taken from the conjuncts, in order.
proof fn lemma_on_side_elements(cs: Seq<PlanExpr>, left: Seq<Seq<char>>, right: Seq<Seq<char>>, side: Side)
    ensures
        forall|i: int| 0 <= i < on_side(cs, left, right, side).len() ==> cs.contains(#[trigger] on_side(cs, left, right, side)[i]),
    decreases cs.len(),
{
    if cs.len() > 0 {
        let d = cs.drop_last();
        lemma_on_side_elements(d, left, right, side);
        let o = on_side(cs, left, right, side);
        assert forall|i: int| 0 <= i < o.len() implies cs.contains(#[trigger] o[i]) by {
            let od = on_side(d, left, right, side);
            if i < od.len() {
                assert(o[i] == od[i]);
                let k = choose|k: int| 0 <= k < d.len() && d[k] == od[i];
                assert(cs[k] == d[k]);
            } else {
                assert(o[i] == cs.last());
                assert(cs[cs.len() - 1] == cs.last());
            }
        }
    }
}

/// The three sides share out the conjuncts, each as often as it occurs.
proof fn lemma_on_side_partition(cs: Seq<PlanExpr>, left: Seq<Seq<char>>, right: Seq<Seq<char>>)
    ensures
        on_side(cs, left, right, Side::Left).to_multiset().add(on_side(cs, left, right, Side::Right).to_multiset()).add(
            on_side(cs, left, right, Side::Neither).to_multiset(),
        ) == cs.to_multiset(),
    decreases cs.len(),
{
    broadcast use vstd::multiset::group_multiset_axioms;
    broadcast use vstd::seq_lib::group_to_multiset_ensures;
    if cs.len() == 0 {
        vstd::multiset::lemma_multiset_empty_len(cs.to_multiset());
        vstd::multiset::lemma_multiset_empty_len(on_side(cs, left, right, Side::Left).to_multiset());
        vstd::multiset::lemma_multiset_empty_len(on_side(cs, left, right, Side::Right).to_multiset());
        vstd::multiset::lemma_multiset_empty_len(on_side(cs, left, right, Side::Neither).to_multiset());
        assert(cs.to_multiset() =~= Multiset::<PlanExpr>::empty());
        assert(on_side(cs, left, right, Side::Left).to_multiset() =~= Multiset::<PlanExpr>::empty());
        assert(on_side(cs, left, right, Side::Right).to_multiset() =~= Multiset::<PlanExpr>::empty());
        assert(on_side(cs, left, right, Side::Neither).to_multiset() =~= Multiset::<PlanExpr>::empty());
    } else {
        let d = cs.drop_last();
        let x = cs.last();
        lemma_on_side_partition(d, left, right);
        assert(d.push(x) =~= cs);
        vstd::seq_lib::to_multiset_build(d, x);
        vstd::seq_lib::to_multiset_build(on_side(d, left, right, Side::Left), x);
        vstd::seq_lib::to_multiset_build(on_side(d, left, right, Side::Right), x);
        vstd::seq_lib::to_multiset_build(on_side(d, left, right, Side::Neither), x);
        assert(on_side(cs, left, right, Side::Left).to_multiset().add(on_side(cs, left, right, Side::Right).to_multiset()).add(
            on_side(cs, left, right, Side::Neither).to_multiset(),
        ) =~= cs.to_multiset());
    }
}

/// Pushing a filter into a join moves each of its conjuncts to exactly one
/// place: between them, the filter on the left input, the filter on the
/// right input and the filter above the join hold the filter's conjuncts,
/// each as often as it occurs in it; each conjunct on an input reads only
/// that input's fields; and splitting each of the new filters gives back
/// the conjuncts that went there.
pub proof fn lemma_join_pushdown_keeps_conjuncts(predicate: PlanExpr, left: Seq<Seq<char>>, right: Seq<Seq<char>>)
    ensures
        on_side(conjuncts(predicate), left, right, Side::Left).to_multiset().add(
            on_side(conjuncts(predicate), left, right, Side::Right).to_multiset(),
        ).add(on_side(conjuncts(predicate), left, right, Side::Neither).to_multiset()) == conjuncts(predicate).to_multiset(),
        forall|i: int| 0 <= i < on_side(conjuncts(predicate), left, right, Side::Left).len()
            ==> within(#[trigger] on_side(conjuncts(predicate), left, right, Side::Left)[i], left),
        forall|i: int| 0 <= i < on_side(conjuncts(predicate), left, right, Side::Right).len()
            ==> within(#[trigger] on_side(conjuncts(predicate), left, right, Side::Right)[i], right),
        forall|side: Side| on_side(conjuncts(predicate), left, right, side).len() > 0
            ==> conjuncts(#[trigger] and_all(on_side(conjuncts(predicate), left, right, side)))
                == on_side(conjuncts(predicate), left, right, side),
{
    let cs = conjuncts(predicate);
    lemma_on_side_partition(cs, left, right);
    lemma_conjuncts_are_not_conjunctions(predicate);
    lemma_on_side_sides(cs, left, right);
    assert forall|side: Side| on_side(cs, left, right, side).len() > 0
        implies conjuncts(#[trigger] and_all(on_side(cs, left, right, side))) == on_side(cs, left, right, side) by {
        let o = on_side(cs, left, right, side);
        lemma_on_side_elements(cs, left, right, side);
        assert forall|i: int| 0 <= i < o.len() implies !is_conjunction(#[trigger] o[i]) by {
            assert(cs.contains(o[i]));
            let k = choose|k: int| 0 <= k < cs.len() && cs[k] == o[i];
            assert(!is_conjunction(cs[k]));
        }
        lemma_and_all_conjuncts(o);
    }
}

/// What goes to a side reads only that side's fields.
proof fn lemma_on_side_sides(cs: Seq<PlanExpr>, left: Seq<Seq<char>>, right: Seq<Seq<char>>)
    ensures
        forall|i: int| 0 <= i < on_side(cs, left, right, Side::Left).len()
            ==> within(#[trigger] on_side(cs, left, right, Side::Left)[i], left),
        forall|i: int| 0 <= i < on_side(cs, left, right, Side::Right).len()
            ==> within(#[trigger] on_side(cs, left, right, Side::Right)[i], right),
    decreases cs.len(),
{
    if cs.len() > 0 {
        let d = cs.drop_last();
        lemma_on_side_sides(d, left, right);
        let ol = on_side(cs, left, right, Side::Left);
        let dl = on_side(d, left, right, Side::Left);
        assert forall|i: int| 0 <= i < ol.len() implies within(#[trigger] ol[i], left) by {
            if i < dl.len() {
                assert(ol[i] == dl[i]);
            }
        }
        let or = on_side(cs, left, right, Side::Right);
        let dr = on_side(d, left, right, Side::Right);
        assert forall|i: int| 0 <= i < or.len() implies within(#[trigger] or[i], right) by {
            if i < dr.len() {
                assert(or[i] == dr[i]);
            }
        }
    }
}

/// Predicate pushdown keeps the fields that a plan outputs.
pub proof fn lemma_pushdown_keeps_fields(p: Plan)
    ensures
        plan_fields(pushdown_rewritten(p)) == plan_fields(p),
    decreases p,
{
    match p {
        Plan::Filter(f) => {
            lemma_pushdown_keeps_fields(*f.input);
            let c = pushdown_rewritten(*f.input);
            let q = Plan::Filter(FilterNode { predicate: f.predicate, input: Box::new(c) });
            assert(pushdown_rewritten(p) == (match pushdown_step(q) {
                Some(n) => n,
                None => q,
            }));
            match c {
                Plan::Join(j) => {
                    let cs = conjuncts(f.predicate);
                    let l = plan_fields(*j.left);
                    let r = plan_fields(*j.right);
                    let new_join = Plan::Join(JoinNode {
                        left: Box::new(filtered(on_side(cs, l, r, Side::Left), *j.left)),
                        right: Box::new(filtered(on_side(cs, l, r, Side::Right), *j.right)),
                        on: j.on,
                        filter: j.filter,
                        join_type: j.join_type,
                        fields: j.fields,
                    });
                    assert(plan_fields(filtered(on_side(cs, l, r, Side::Neither), new_join)) == plan_fields(new_join));
                },
                _ => {},
            }
        },
        Plan::Sort { input } => {
            lemma_pushdown_keeps_fields(*input);
        },
        Plan::Limit { input } => {
            lemma_pushdown_keeps_fields(*input);
        },
        _ => {},
    }
}

/// The scans of a plan without their pushed predicates.
pub open spec fn scan_sources(p: Plan) -> Seq<TableScanNode> {
    scans_of(p).map_values(|s: TableScanNode| unfiltered(s))
}

proof fn lemma_sources_concat(a: Seq<TableScanNode>, b: Seq<TableScanNode>)
    ensures
        (a + b).map_values(|s: TableScanNode| unfiltered(s))
            == a.map_values(|s: TableScanNode| unfiltered(s)) + b.map_values(|s: TableScanNode| unfiltered(s)),
{
    assert((a + b).map_values(|s: TableScanNode| unfiltered(s))
        =~= a.map_values(|s: TableScanNode| unfiltered(s)) + b.map_values(|s: TableScanNode| unfiltered(s)));
}

/// Predicate pushdown keeps every table scan of a plan, in order: each
/// reads the same table in the same way, only the predicates pushed into
/// it grow.
pub proof fn lemma_pushdown_keeps_scans(p: Plan)
    ensures
        scan_sources(pushdown_rewritten(p)) == scan_sources(p),
    decreases p,
{
    match p {
        Plan::TableScan(s) => {
            assert(pushdown_step(Plan::TableScan(s)) is None);
        },
        Plan::Filter(f) => {
            lemma_pushdown_keeps_scans(*f.input);
            let c = pushdown_rewritten(*f.input);
            let q = Plan::Filter(FilterNode { predicate: f.predicate, input: Box::new(c) });
            assert(pushdown_rewritten(p) == (match pushdown_step(q) {
                Some(n) => n,
                None => q,
            }));
            match c {
                Plan::TableScan(sc) => {
                    if within(f.predicate, texts(sc.projected_fields@)) {
                        assert(scan_sources(Plan::TableScan(with_filter(sc, f.predicate))) =~= scan_sources(c));
                    }
                },
                Plan::Join(j) => {
                    let cs = conjuncts(f.predicate);
                    let l = plan_fields(*j.left);
                    let r = plan_fields(*j.right);
                    let new_join = Plan::Join(JoinNode {
                        left: Box::new(filtered(on_side(cs, l, r, Side::Left), *j.left)),
                        right: Box::new(filtered(on_side(cs, l, r, Side::Right), *j.right)),
                        on: j.on,
                        filter: j.filter,
                        join_type: j.join_type,
                        fields: j.fields,
                    });
                    assert(scans_of(filtered(on_side(cs, l, r, Side::Left), *j.left)) == scans_of(*j.left));
                    assert(scans_of(filtered(on_side(cs, l, r, Side::Right), *j.right)) == scans_of(*j.right));
                    assert(scans_of(filtered(on_side(cs, l, r, Side::Neither), new_join)) == scans_of(new_join));
                    assert(scans_of(new_join) == scans_of(c));
                },
                _ => {},
            }
        },
        Plan::Projection(pr) => {
            lemma_pushdown_keeps_scans(*pr.input);
        },
        Plan::Join(j) => {
            lemma_pushdown_keeps_scans(*j.left);
            lemma_pushdown_keeps_scans(*j.right);
            let nl = pushdown_rewritten(*j.left);
            let nr = pushdown_rewritten(*j.right);
            lemma_sources_concat(scans_of(nl), scans_of(nr));
            lemma_sources_concat(scans_of(*j.left), scans_of(*j.right));
            let q = Plan::Join(JoinNode {
                left: Box::new(nl),
                right: Box::new(nr),
                on: j.on,
                filter: j.filter,
                join_type: j.join_type,
                fields: j.fields,
            });
            assert(pushdown_step(q) is None);
            assert(scans_of(q) == scans_of(nl) + scans_of(nr));
        },
        Plan::Aggregate { input, .. } => {
            lemma_pushdown_keeps_scans(*input);
        },
        Plan::Sort { input } => {
            lemma_pushdown_keeps_scans(*input);
        },
        Plan::Limit { input } => {
            lemma_pushdown_keeps_scans(*input);
        },
        Plan::Extension { inputs, .. } => {
            lemma_pushdown_keeps_scans_in(inputs);
        },
        Plan::Other { inputs, .. } => {
            lemma_pushdown_keeps_scans_in(inputs);
        },
    }
}

proof fn lemma_pushdown_keeps_scans_in(l: PlanInputs)
    ensures
        scans_in(pushdown_rewritten_inputs(l)).map_values(|s: TableScanNode| unfiltered(s))
            == scans_in(l).map_values(|s: TableScanNode| unfiltered(s)),
    decreases l,
{
    match l {
        PlanInputs::End => {},
        PlanInputs::Input { plan, rest } => {
            lemma_pushdown_keeps_scans(*plan);
            lemma_pushdown_keeps_scans_in(*rest);
            lemma_sources_concat(scans_of(pushdown_rewritten(*plan)), scans_in(pushdown_rewritten_inputs(*rest)));
            lemma_sources_concat(scans_of(*plan), scans_in(*rest));
        },
    }
}

/// The conditions that a plan applies to rows: the conjuncts of each
/// filter's predicate and of each scan's pushed predicate, counted as
/// often as they occur.
pub open spec fn conditions_of(p: Plan) -> Multiset<PlanExpr>
    decreases p,
{
    match p {
        Plan::TableScan(s) => match s.filter {
            Some(e) => conjuncts(e).to_multiset(),
            None => Multiset::empty(),
        },
        Plan::Filter(f) => conjuncts(f.predicate).to_multiset().add(conditions_of(*f.input)),
        Plan::Projection(pr) => conditions_of(*pr.input),
        Plan::Join(j) => conditions_of(*j.left).add(conditions_of(*j.right)),
        Plan::Aggregate { input, .. } => conditions_of(*input),
        Plan::Sort { input } => conditions_of(*input),
        Plan::Limit { input } => conditions_of(*input),
        Plan::Extension { inputs, .. } => conditions_in(inputs),
        Plan::Other { inputs, .. } => conditions_in(inputs),
    }
}

pub open spec fn conditions_in(l: PlanInputs) -> Multiset<PlanExpr>
    decreases l,
{
    match l {
        PlanInputs::End => Multiset::empty(),
        PlanInputs::Input { plan, rest } => conditions_of(*plan).add(conditions_in(*rest)),
    }
}

/// A filter by the conjunction of conditions holds those conditions.
proof fn lemma_filtered_conditions(preds: Seq<PlanExpr>, input: Plan)
    requires
        preds.len() > 0 ==> conjuncts(and_all(preds)) == preds,
    ensures
        conditions_of(filtered(preds, input)) == preds.to_multiset().add(conditions_of(input)),
{
    broadcast use vstd::multiset::group_multiset_axioms;
    broadcast use vstd::seq_lib::group_to_multiset_ensures;
    if preds.len() == 0 {
        assert(preds.to_multiset() =~= Multiset::empty());
        assert(conditions_of(input) =~= Multiset::<PlanExpr>::empty().add(conditions_of(input)));
    }
}

/// Predicate pushdown neither drops nor adds a condition: the conditions
/// that a plan applies to rows, counted as often as they occur, are the
/// same once filters are pushed towards the scans; only where they are
/// applied changes.
pub proof fn lemma_pushdown_keeps_conditions(p: Plan)
    ensures
        conditions_of(pushdown_rewritten(p)) == conditions_of(p),
    decreases p,
{
    broadcast use vstd::multiset::group_multiset_axioms;
    broadcast use vstd::seq_lib::group_to_multiset_ensures;
    match p {
        Plan::TableScan(s) => {
            assert(pushdown_step(Plan::TableScan(s)) is None);
        },
        Plan::Filter(f) => {
            lemma_pushdown_keeps_conditions(*f.input);
            let c = pushdown_rewritten(*f.input);
            let q = Plan::Filter(FilterNode { predicate: f.predicate, input: Box::new(c) });
            assert(pushdown_rewritten(p) == (match pushdown_step(q) {
                Some(n) => n,
                None => q,
            }));
            match c {
                Plan::TableScan(sc) => {
                    if within(f.predicate, texts(sc.projected_fields@)) {
                        let t = with_filter(sc, f.predicate);
                        match sc.filter {
                            Some(old) => {
                                let e = PlanExpr::Binary { left: Box::new(old), op: BinaryOp::And, right: Box::new(f.predicate) };
                                assert(conjuncts(e) == conjuncts(old) + conjuncts(f.predicate));
                                vstd::seq_lib::lemma_multiset_commutative(conjuncts(old), conjuncts(f.predicate));
                                assert(conditions_of(Plan::TableScan(t)) =~= conditions_of(q));
                            },
                            None => {
                                assert(conditions_of(Plan::TableScan(t)) =~= conditions_of(q));
                            },
                        }
                    }
                },
                Plan::Join(j) => {
                    if join_pushdown(f.predicate, j) is Some {
                        let cs = conjuncts(f.predicate);
                        let l = plan_fields(*j.left);
                        let r = plan_fields(*j.right);
                        lemma_join_pushdown_keeps_conjuncts(f.predicate, l, r);
                        let lp = on_side(cs, l, r, Side::Left);
                        let rp = on_side(cs, l, r, Side::Right);
                        let np = on_side(cs, l, r, Side::Neither);
                        let new_join = Plan::Join(JoinNode {
                            left: Box::new(filtered(lp, *j.left)),
                            right: Box::new(filtered(rp, *j.right)),
                            on: j.on,
                            filter: j.filter,
                            join_type: j.join_type,
                            fields: j.fields,
                        });
                        lemma_filtered_conditions(lp, *j.left);
                        lemma_filtered_conditions(rp, *j.right);
                        lemma_filtered_conditions(np, new_join);
                        assert(conditions_of(filtered(np, new_join)) =~= conditions_of(q));
                    }
                },
                _ => {},
            }
        },
        Plan::Projection(pr) => {
            lemma_pushdown_keeps_conditions(*pr.input);
        },
        Plan::Join(j) => {
            lemma_pushdown_keeps_conditions(*j.left);
            lemma_pushdown_keeps_conditions(*j.right);
            let q = Plan::Join(JoinNode {
                left: Box::new(pushdown_rewritten(*j.left)),
                right: Box::new(pushdown_rewritten(*j.right)),
                on: j.on,
                filter: j.filter,
                join_type: j.join_type,
                fields: j.fields,
            });
            assert(pushdown_step(q) is None);
        },
        Plan::Aggregate { input, .. } => {
            lemma_pushdown_keeps_conditions(*input);
        },
        Plan::Sort { input } => {
            lemma_pushdown_keeps_conditions(*input);
        },
        Plan::Limit { input } => {
            lemma_pushdown_keeps_conditions(*input);
        },
        Plan::Extension { inputs, .. } => {
            lemma_pushdown_keeps_conditions_in(inputs);
        },
        Plan::Other { inputs, .. } => {
            lemma_pushdown_keeps_conditions_in(inputs);
        },
    }
}

proof fn lemma_pushdown_keeps_conditions_in(l: PlanInputs)
    ensures
        conditions_in(pushdown_rewritten_inputs(l)) == conditions_in(l),
    decreases l,
{
    match l {
        PlanInputs::End => {},
        PlanInputs::Input { plan, rest } => {
            lemma_pushdown_keeps_conditions(*plan);
            lemma_pushdown_keeps_conditions_in(*rest);
        },
    }
}

/// Projections and filters do not change how many rows a plan has: over
/// every plan, wrapping it in a projection or a filter keeps its size
/// estimate, so a scan of a dimension or lookup table stays small however
/// many projections and filters stand over it.
pub proof fn lemma_row_preserving_wrappers_keep_size(p: Plan, exprs: Vec<PlanExpr>, fields: Vec<String>, predicate: PlanExpr)
    ensures
        plan_size(Plan::Projection(ProjectionNode { exprs, fields, input: Box::new(p) })) == plan_size(p),
        plan_size(Plan::Filter(FilterNode { predicate, input: Box::new(p) })) == plan_size(p),
{
}

/// The strategy of a join does not change when either of its inputs is
/// put under a projection: a dimension table projected onto some of its
/// columns is still broadcast.
pub proof fn lemma_join_strategy_ignores_projections(j: JoinNode, exprs: Vec<PlanExpr>, fields: Vec<String>, on_left: bool)
    ensures
        ({
            let projected = Plan::Projection(ProjectionNode {
                exprs,
                fields,
                input: if on_left { j.left } else { j.right },
            });
            join_strategy(JoinNode {
                left: if on_left { Box::new(projected) } else { j.left },
                right: if on_left { j.right } else { Box::new(projected) },
                on: j.on,
                filter: j.filter,
                join_type: j.join_type,
                fields: j.fields,
            }) == join_strategy(j)
        }),
{
    let projected = Plan::Projection(ProjectionNode { exprs, fields, input: if on_left { j.left } else { j.right } });
    let nj = JoinNode {
        left: if on_left { Box::new(projected) } else { j.left },
        right: if on_left { j.right } else { Box::new(projected) },
        on: j.on,
        filter: j.filter,
        join_type: j.join_type,
        fields: j.fields,
    };
    assert(plan_size(*nj.left) == plan_size(*j.left));
    assert(plan_size(*nj.right) == plan_size(*j.right));
    assert(nj.on == j.on && nj.filter == j.filter);
    if j.filter is None {
        if join_has_time_condition(j) {
            let i = choose|i: int| 0 <= i < j.on@.len() && (reads_time_column(#[trigger] j.on@[i].0) || reads_time_column(j.on@[i].1));
            assert(0 <= i < nj.on@.len() && (reads_time_column(nj.on@[i].0) || reads_time_column(nj.on@[i].1)));
        }
        if join_has_time_condition(nj) {
            let i = choose|i: int| 0 <= i < nj.on@.len() && (reads_time_column(#[trigger] nj.on@[i].0) || reads_time_column(nj.on@[i].1));
            assert(0 <= i < j.on@.len() && (reads_time_column(j.on@[i].0) || reads_time_column(j.on@[i].1)));
        }
    }
    assert(join_has_time_condition(nj) == join_has_time_condition(j));
}

/// What a join's strategy says of its inputs, and how it turns when the
/// inputs change places: a join involving time is a window join over both
/// inputs' sizes; otherwise the one small input, and only that one, is
/// broadcast, and a join whose inputs are both small or both not small is
/// partitioned. Exchanging the inputs exchanges the sizes of a window join
/// and the side that is broadcast, and keeps a partitioned join.
pub proof fn lemma_join_strategy_sides(j: JoinNode)
    ensures
        ({
            let l = plan_size(*j.left);
            let r = plan_size(*j.right);
            let s = join_strategy(j);
            let swapped = join_strategy(JoinNode {
                left: j.right,
                right: j.left,
                on: j.on,
                filter: j.filter,
                join_type: j.join_type,
                fields: j.fields,
            });
            &&& join_has_time_condition(j) ==> s == JoinStrategy::Window { left_size: l, right_size: r }
            &&& s matches JoinStrategy::Broadcast { broadcast_left: b } ==> !join_has_time_condition(j)
                && (if b { l == TableSize::Small && r != TableSize::Small } else { r == TableSize::Small && l != TableSize::Small })
            &&& s is Partitioned ==> !join_has_time_condition(j) && ((l == TableSize::Small) == (r == TableSize::Small))
            &&& match s {
                JoinStrategy::Window { left_size, right_size } => swapped == JoinStrategy::Window { left_size: right_size, right_size: left_size },
                JoinStrategy::Broadcast { broadcast_left } => swapped == JoinStrategy::Broadcast { broadcast_left: !broadcast_left },
                JoinStrategy::Partitioned => swapped == JoinStrategy::Partitioned,
            }
        }),
{
    let nj = JoinNode { left: j.right, right: j.left, on: j.on, filter: j.filter, join_type: j.join_type, fields: j.fields };
    assert(nj.on == j.on && nj.filter == j.filter);
    if j.filter is None {
        if join_has_time_condition(j) {
            let i = choose|i: int| 0 <= i < j.on@.len() && (reads_time_column(#[trigger] j.on@[i].0) || reads_time_column(j.on@[i].1));
            assert(0 <= i < nj.on@.len() && (reads_time_column(nj.on@[i].0) || reads_time_column(nj.on@[i].1)));
        }
        if join_has_time_condition(nj) {
            let i = choose|i: int| 0 <= i < nj.on@.len() && (reads_time_column(#[trigger] nj.on@[i].0) || reads_time_column(nj.on@[i].1));
            assert(0 <= i < j.on@.len() && (reads_time_column(j.on@[i].0) || reads_time_column(j.on@[i].1)));
        }
    }
    assert(join_has_time_condition(nj) == join_has_time_condition(j));
}

/// A scan of a table whose name mentions `dimension` or `lookup` is
/// expected small, and so is any projection or filter over one; a scan of
/// any other table is expected large, and an aggregate is of medium size
/// whatever it aggregates.
pub proof fn lemma_small_tables(s: TableScanNode, exprs: Vec<PlanExpr>, fields: Vec<String>, predicate: PlanExpr, input: Plan)
    ensures
        (occurs_in(s.table_name@, "dimension"@) || occurs_in(s.table_name@, "lookup"@)) <==> plan_size(Plan::TableScan(s)) == TableSize::Small,
        !(occurs_in(s.table_name@, "dimension"@) || occurs_in(s.table_name@, "lookup"@)) <==> plan_size(Plan::TableScan(s)) == TableSize::Large,
        plan_size(Plan::Projection(ProjectionNode { exprs, fields, input: Box::new(Plan::TableScan(s)) })) == plan_size(Plan::TableScan(s)),
        plan_size(Plan::Filter(FilterNode { predicate, input: Box::new(Plan::TableScan(s)) })) == plan_size(Plan::TableScan(s)),
        plan_size(Plan::Aggregate { input: Box::new(input), fields }) == TableSize::Medium,
{
}

} // verus!
