//! Logical query plans as the optimizers see them: each operator with its
//! inputs and output fields, and the expressions it holds, down to the
//! column names that an expression reads.

use vstd::prelude::*;
use crate::scaling::copy_string;
use crate::strmap::str_eq;
use crate::text::texts;

verus! {

/// A binary operator of an expression.
#[derive(Debug, Clone, Copy, PartialEq, Eq, Structural)]
pub enum BinaryOp {
    And,
    Or,
    Eq,
    NotEq,
    Lt,
    LtEq,
    Gt,
    GtEq,
    Plus,
    Minus,
    Other,
}

/// An expression of a plan.
#[derive(Debug)]
pub enum PlanExpr {
    /// A column, by name.
    Column(String),
    /// A literal, as written.
    Literal(String),
    Binary { left: Box<PlanExpr>, op: BinaryOp, right: Box<PlanExpr> },
    /// `expr [NOT] BETWEEN low AND high`.
    Between { expr: Box<PlanExpr>, negated: bool, low: Box<PlanExpr>, high: Box<PlanExpr> },
    /// Any other expression, with the expressions it is made of.
    Other(Vec<PlanExpr>),
}

/// The kind of a join.
#[derive(Debug, Clone, Copy, PartialEq, Eq, Structural)]
pub enum JoinKind {
    Inner,
    Left,
    Right,
    Full,
    Other,
}

/// A scan of a table: its name as displayed, the fields of the table, the
/// positions of the fields it reads (all of them when `None`), its output
/// fields, and the predicate pushed into it: the scan yields only the rows
/// for which that predicate holds (every row when `None`).
#[derive(Debug)]
pub struct TableScanNode {
    pub table_name: String,
    pub table_fields: Vec<String>,
    pub projection: Option<Vec<usize>>,
    pub projected_fields: Vec<String>,
    pub filter: Option<PlanExpr>,
}

/// A filter: the rows of `input` for which `predicate` holds.
#[derive(Debug)]
pub struct FilterNode {
    pub predicate: PlanExpr,
    pub input: Box<Plan>,
}

/// A projection: the expressions it computes and the fields they are
/// output as.
#[derive(Debug)]
pub struct ProjectionNode {
    pub exprs: Vec<PlanExpr>,
    pub fields: Vec<String>,
    pub input: Box<Plan>,
}

/// A join: its two inputs, the pairs of expressions it joins on, its
/// filter, its kind and its output fields.
#[derive(Debug)]
pub struct JoinNode {
    pub left: Box<Plan>,
    pub right: Box<Plan>,
    pub on: Vec<(PlanExpr, PlanExpr)>,
    pub filter: Option<PlanExpr>,
    pub join_type: JoinKind,
    pub fields: Vec<String>,
}

/// A logical plan.
#[derive(Debug)]
pub enum Plan {
    TableScan(TableScanNode),
    Filter(FilterNode),
    Projection(ProjectionNode),
    Join(JoinNode),
    Aggregate { input: Box<Plan>, fields: Vec<String> },
    Sort { input: Box<Plan> },
    Limit { input: Box<Plan> },
    Extension { inputs: PlanInputs, fields: Vec<String> },
    /// Any other operator, with its inputs.
    Other { inputs: PlanInputs, fields: Vec<String> },
}

/// The inputs of an operator that has any number of them, in order.
#[derive(Debug)]
pub enum PlanInputs {
    End,
    Input { plan: Box<Plan>, rest: Box<PlanInputs> },
}

/// The columns that an expression reads, in the order they are written.
pub open spec fn expr_columns(e: PlanExpr) -> Seq<Seq<char>>
    decreases e,
{
    match e {
        PlanExpr::Column(name) => seq![name@],
        PlanExpr::Literal(_) => Seq::empty(),
        PlanExpr::Binary { left, right, .. } => expr_columns(*left) + expr_columns(*right),
        PlanExpr::Between { expr, low, high, .. } => expr_columns(*expr) + expr_columns(*low) + expr_columns(*high),
        PlanExpr::Other(args) => all_columns(args@),
    }
}

/// The columns that a list of expressions reads, in order.
pub open spec fn all_columns(es: Seq<PlanExpr>) -> Seq<Seq<char>>
    decreases es,
{
    if es.len() == 0 {
        Seq::empty()
    } else {
        all_columns(es.drop_last()) + expr_columns(es.last())
    }
}

/// The fields that a plan outputs: a scan its projected fields, a filter,
/// sort or limit those of its input, any other operator its own.
pub open spec fn plan_fields(p: Plan) -> Seq<Seq<char>>
    decreases p,
{
    match p {
        Plan::TableScan(s) => texts(s.projected_fields@),
        Plan::Filter(f) => plan_fields(*f.input),
        Plan::Projection(pr) => texts(pr.fields@),
        Plan::Join(j) => texts(j.fields@),
        Plan::Aggregate { fields, .. } => texts(fields@),
        Plan::Sort { input } => plan_fields(*input),
        Plan::Limit { input } => plan_fields(*input),
        Plan::Extension { fields, .. } => texts(fields@),
        Plan::Other { fields, .. } => texts(fields@),
    }
}

/// The name of an operator's kind, for the kinds that have one.
pub open spec fn node_name(p: Plan) -> Option<Seq<char>> {
    match p {
        Plan::TableScan(_) => Some("TableScan"@),
        Plan::Filter(_) => Some("Filter"@),
        Plan::Projection(_) => Some("Projection"@),
        Plan::Join(_) => Some("Join"@),
        Plan::Aggregate { .. } => Some("Aggregate"@),
        Plan::Sort { .. } => Some("Sort"@),
        Plan::Limit { .. } => Some("Limit"@),
        Plan::Extension { .. } => Some("Extension"@),
        Plan::Other { .. } => None,
    }
}

/// Whether an operator of the kind named `t` occurs in the plan.
pub open spec fn contains_node(p: Plan, t: Seq<char>) -> bool
    decreases p,
{
    node_name(p) == Some(t) || match p {
        Plan::TableScan(_) => false,
        Plan::Filter(f) => contains_node(*f.input, t),
        Plan::Projection(pr) => contains_node(*pr.input, t),
        Plan::Join(j) => contains_node(*j.left, t) || contains_node(*j.right, t),
        Plan::Aggregate { input, .. } => contains_node(*input, t),
        Plan::Sort { input } => contains_node(*input, t),
        Plan::Limit { input } => contains_node(*input, t),
        Plan::Extension { inputs, .. } => any_contains_node(inputs, t),
        Plan::Other { inputs, .. } => any_contains_node(inputs, t),
    }
}

pub open spec fn any_contains_node(l: PlanInputs, t: Seq<char>) -> bool
    decreases l,
{
    match l {
        PlanInputs::End => false,
        PlanInputs::Input { plan, rest } => contains_node(*plan, t) || any_contains_node(*rest, t),
    }
}

/// The table scans of a plan, outermost first and left to right.
pub open spec fn scans_of(p: Plan) -> Seq<TableScanNode>
    decreases p,
{
    match p {
        Plan::TableScan(s) => seq![s],
        Plan::Filter(f) => scans_of(*f.input),
        Plan::Projection(pr) => scans_of(*pr.input),
        Plan::Join(j) => scans_of(*j.left) + scans_of(*j.right),
        Plan::Aggregate { input, .. } => scans_of(*input),
        Plan::Sort { input } => scans_of(*input),
        Plan::Limit { input } => scans_of(*input),
        Plan::Extension { inputs, .. } => scans_in(inputs),
        Plan::Other { inputs, .. } => scans_in(inputs),
    }
}

pub open spec fn scans_in(l: PlanInputs) -> Seq<TableScanNode>
    decreases l,
{
    match l {
        PlanInputs::End => Seq::empty(),
        PlanInputs::Input { plan, rest } => scans_of(*plan) + scans_in(*rest),
    }
}

/// The filters of a plan that no other filter holds, outermost first and
/// left to right.
pub open spec fn filters_of(p: Plan) -> Seq<FilterNode>
    decreases p,
{
    match p {
        Plan::TableScan(_) => Seq::empty(),
        Plan::Filter(f) => seq![f],
        Plan::Projection(pr) => filters_of(*pr.input),
        Plan::Join(j) => filters_of(*j.left) + filters_of(*j.right),
        Plan::Aggregate { input, .. } => filters_of(*input),
        Plan::Sort { input } => filters_of(*input),
        Plan::Limit { input } => filters_of(*input),
        Plan::Extension { inputs, .. } => filters_in(inputs),
        Plan::Other { inputs, .. } => filters_in(inputs),
    }
}

pub open spec fn filters_in(l: PlanInputs) -> Seq<FilterNode>
    decreases l,
{
    match l {
        PlanInputs::End => Seq::empty(),
        PlanInputs::Input { plan, rest } => filters_of(*plan) + filters_in(*rest),
    }
}

/// The projections of a plan that no other projection holds, outermost
/// first and left to right.
pub open spec fn projections_of(p: Plan) -> Seq<ProjectionNode>
    decreases p,
{
    match p {
        Plan::TableScan(_) => Seq::empty(),
        Plan::Filter(f) => projections_of(*f.input),
        Plan::Projection(pr) => seq![pr],
        Plan::Join(j) => projections_of(*j.left) + projections_of(*j.right),
        Plan::Aggregate { input, .. } => projections_of(*input),
        Plan::Sort { input } => projections_of(*input),
        Plan::Limit { input } => projections_of(*input),
        Plan::Extension { inputs, .. } => projections_in(inputs),
        Plan::Other { inputs, .. } => projections_in(inputs),
    }
}

pub open spec fn projections_in(l: PlanInputs) -> Seq<ProjectionNode>
    decreases l,
{
    match l {
        PlanInputs::End => Seq::empty(),
        PlanInputs::Input { plan, rest } => projections_of(*plan) + projections_in(*rest),
    }
}

/// The columns that an expression reads, in the order they are written.
pub fn expr_to_columns(e: &PlanExpr) -> (r: Vec<String>)
    ensures
        texts(r@) == expr_columns(*e),
    decreases e,
{
    match e {
        PlanExpr::Column(name) => {
            let mut r: Vec<String> = Vec::new();
            r.push(copy_string(name));
            proof {
                assert(texts(r@) =~= seq![name@]);
            }
            r
        },
        PlanExpr::Literal(_) => {
            let r: Vec<String> = Vec::new();
            proof {
                assert(texts(r@) =~= Seq::<Seq<char>>::empty());
            }
            r
        },
        PlanExpr::Binary { left, right, .. } => {
            let mut r = expr_to_columns(left);
            let mut more = expr_to_columns(right);
            let ghost (a, b) = (r@, more@);
            r.append(&mut more);
            proof {
                assert(texts(r@) =~= texts(a) + texts(b));
            }
            r
        },
        PlanExpr::Between { expr, low, high, .. } => {
            let mut r = expr_to_columns(expr);
            let mut lows = expr_to_columns(low);
            let mut highs = expr_to_columns(high);
            let ghost (a, b, c) = (r@, lows@, highs@);
            r.append(&mut lows);
            r.append(&mut highs);
            proof {
                assert(texts(r@) =~= texts(a) + texts(b) + texts(c));
            }
            r
        },
        PlanExpr::Other(args) => {
            let mut r: Vec<String> = Vec::new();
            let mut i: usize = 0;
            while i < args.len()
                invariant
                    0 <= i <= args@.len(),
                    texts(r@) == all_columns(args@.subrange(0, i as int)),
                    *e == PlanExpr::Other(*args),
                decreases args.len() - i,
            {
                proof {
                    assert(decreases_to!(*e => e->Other_0));
                    assert(decreases_to!(e->Other_0 => args@));
                    assert(decreases_to!(args@ => args@[i as int]));
                    assert(args@.subrange(0, i + 1).drop_last() =~= args@.subrange(0, i as int));
                }
                let mut more = expr_to_columns(&args[i]);
                let ghost (a, b) = (r@, more@);
                r.append(&mut more);
                proof {
                    assert(texts(r@) =~= texts(a) + texts(b));
                }
                i = i + 1;
            }
            proof {
                assert(args@.subrange(0, args@.len() as int) =~= args@);
            }
            r
        },
    }
}

/// The fields that a plan outputs.
pub fn output_fields(p: &Plan) -> (r: &Vec<String>)
    ensures
        texts(r@) == plan_fields(*p),
    decreases p,
{
    match p {
        Plan::TableScan(s) => &s.projected_fields,
        Plan::Filter(f) => output_fields(&f.input),
        Plan::Projection(pr) => &pr.fields,
        Plan::Join(j) => &j.fields,
        Plan::Aggregate { fields, .. } => fields,
        Plan::Sort { input } => output_fields(input),
        Plan::Limit { input } => output_fields(input),
        Plan::Extension { fields, .. } => fields,
        Plan::Other { fields, .. } => fields,
    }
}

fn names_kind(p: &Plan, node_type: &str) -> (b: bool)
    ensures
        b == (node_name(*p) == Some(node_type@)),
{
    proof {
        reveal_strlit("TableScan");
        reveal_strlit("Filter");
        reveal_strlit("Projection");
        reveal_strlit("Join");
        reveal_strlit("Aggregate");
        reveal_strlit("Sort");
        reveal_strlit("Limit");
        reveal_strlit("Extension");
    }
    match p {
        Plan::TableScan(_) => str_eq(node_type, "TableScan"),
        Plan::Filter(_) => str_eq(node_type, "Filter"),
        Plan::Projection(_) => str_eq(node_type, "Projection"),
        Plan::Join(_) => str_eq(node_type, "Join"),
        Plan::Aggregate { .. } => str_eq(node_type, "Aggregate"),
        Plan::Sort { .. } => str_eq(node_type, "Sort"),
        Plan::Limit { .. } => str_eq(node_type, "Limit"),
        Plan::Extension { .. } => str_eq(node_type, "Extension"),
        Plan::Other { .. } => false,
    }
}

/// Whether an operator of the kind named `node_type` (`TableScan`,
/// `Filter`, `Projection`, `Aggregate`, `Join`, `Sort`, `Limit` or
/// `Extension`) occurs in the plan.
pub fn plan_contains_node_type(plan: &Plan, node_type: &str) -> (b: bool)
    ensures
        b == contains_node(*plan, node_type@),
    decreases plan,
{
    if names_kind(plan, node_type) {
        return true;
    }
    match plan {
        Plan::TableScan(_) => false,
        Plan::Filter(f) => plan_contains_node_type(&f.input, node_type),
        Plan::Projection(pr) => plan_contains_node_type(&pr.input, node_type),
        Plan::Join(j) => plan_contains_node_type(&j.left, node_type) || plan_contains_node_type(&j.right, node_type),
        Plan::Aggregate { input, .. } => plan_contains_node_type(input, node_type),
        Plan::Sort { input } => plan_contains_node_type(input, node_type),
        Plan::Limit { input } => plan_contains_node_type(input, node_type),
        Plan::Extension { inputs, .. } => inputs_contain_node_type(inputs, node_type),
        Plan::Other { inputs, .. } => inputs_contain_node_type(inputs, node_type),
    }
}

fn inputs_contain_node_type(l: &PlanInputs, node_type: &str) -> (b: bool)
    ensures
        b == any_contains_node(*l, node_type@),
    decreases l,
{
    match l {
        PlanInputs::End => false,
        PlanInputs::Input { plan, rest } => plan_contains_node_type(plan, node_type) || inputs_contain_node_type(rest, node_type),
    }
}

/// The table scans of a plan, outermost first and left to right.
pub fn get_table_scans<'a>(plan: &'a Plan) -> (r: Vec<&'a TableScanNode>)
    ensures
        r@.len() == scans_of(*plan).len(),
        forall|i: int| 0 <= i < r@.len() ==> *r@[i] == scans_of(*plan)[i],
    decreases plan,
{
    match plan {
        Plan::TableScan(s) => {
            let mut r: Vec<&TableScanNode> = Vec::new();
            r.push(s);
            r
        },
        Plan::Filter(f) => get_table_scans(&f.input),
        Plan::Projection(pr) => get_table_scans(&pr.input),
        Plan::Join(j) => {
            let mut r = get_table_scans(&j.left);
            let mut more = get_table_scans(&j.right);
            r.append(&mut more);
            r
        },
        Plan::Aggregate { input, .. } => get_table_scans(input),
        Plan::Sort { input } => get_table_scans(input),
        Plan::Limit { input } => get_table_scans(input),
        Plan::Extension { inputs, .. } => table_scans_in(inputs),
        Plan::Other { inputs, .. } => table_scans_in(inputs),
    }
}

fn table_scans_in<'a>(l: &'a PlanInputs) -> (r: Vec<&'a TableScanNode>)
    ensures
        r@.len() == scans_in(*l).len(),
        forall|i: int| 0 <= i < r@.len() ==> *r@[i] == scans_in(*l)[i],
    decreases l,
{
    match l {
        PlanInputs::End => Vec::new(),
        PlanInputs::Input { plan, rest } => {
            let mut r = get_table_scans(plan);
            let mut more = table_scans_in(rest);
            r.append(&mut more);
            r
        },
    }
}

/// The filters of a plan that no other filter holds, outermost first and
/// left to right.
pub fn get_filters<'a>(plan: &'a Plan) -> (r: Vec<&'a FilterNode>)
    ensures
        r@.len() == filters_of(*plan).len(),
        forall|i: int| 0 <= i < r@.len() ==> *r@[i] == filters_of(*plan)[i],
    decreases plan,
{
    match plan {
        Plan::TableScan(_) => Vec::new(),
        Plan::Filter(f) => {
            let mut r: Vec<&FilterNode> = Vec::new();
            r.push(f);
            r
        },
        Plan::Projection(pr) => get_filters(&pr.input),
        Plan::Join(j) => {
            let mut r = get_filters(&j.left);
            let mut more = get_filters(&j.right);
            r.append(&mut more);
            r
        },
        Plan::Aggregate { input, .. } => get_filters(input),
        Plan::Sort { input } => get_filters(input),
        Plan::Limit { input } => get_filters(input),
        Plan::Extension { inputs, .. } => filters_in_inputs(inputs),
        Plan::Other { inputs, .. } => filters_in_inputs(inputs),
    }
}

fn filters_in_inputs<'a>(l: &'a PlanInputs) -> (r: Vec<&'a FilterNode>)
    ensures
        r@.len() == filters_in(*l).len(),
        forall|i: int| 0 <= i < r@.len() ==> *r@[i] == filters_in(*l)[i],
    decreases l,
{
    match l {
        PlanInputs::End => Vec::new(),
        PlanInputs::Input { plan, rest } => {
            let mut r = get_filters(plan);
            let mut more = filters_in_inputs(rest);
            r.append(&mut more);
            r
        },
    }
}

/// The projections of a plan that no other projection holds, outermost
/// first and left to right.
pub fn get_projections<'a>(plan: &'a Plan) -> (r: Vec<&'a ProjectionNode>)
    ensures
        r@.len() == projections_of(*plan).len(),
        forall|i: int| 0 <= i < r@.len() ==> *r@[i] == projections_of(*plan)[i],
    decreases plan,
{
    match plan {
        Plan::TableScan(_) => Vec::new(),
        Plan::Filter(f) => get_projections(&f.input),
        Plan::Projection(pr) => {
            let mut r: Vec<&ProjectionNode> = Vec::new();
            r.push(pr);
            r
        },
        Plan::Join(j) => {
            let mut r = get_projections(&j.left);
            let mut more = get_projections(&j.right);
            r.append(&mut more);
            r
        },
        Plan::Aggregate { input, .. } => get_projections(input),
        Plan::Sort { input } => get_projections(input),
        Plan::Limit { input } => get_projections(input),
        Plan::Extension { inputs, .. } => projections_in_inputs(inputs),
        Plan::Other { inputs, .. } => projections_in_inputs(inputs),
    }
}

fn projections_in_inputs<'a>(l: &'a PlanInputs) -> (r: Vec<&'a ProjectionNode>)
    ensures
        r@.len() == projections_in(*l).len(),
        forall|i: int| 0 <= i < r@.len() ==> *r@[i] == projections_in(*l)[i],
    decreases l,
{
    match l {
        PlanInputs::End => Vec::new(),
        PlanInputs::Input { plan, rest } => {
            let mut r = get_projections(plan);
            let mut more = projections_in_inputs(rest);
            r.append(&mut more);
            r
        },
    }
}

} // verus!
