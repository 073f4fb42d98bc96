use arroyo_control::logical_plan::{
    expr_to_columns, get_filters, get_projections, get_table_scans, output_fields, plan_contains_node_type, BinaryOp,
    FilterNode, JoinKind, JoinNode, Plan, PlanExpr, PlanInputs, ProjectionNode, TableScanNode,
};
use arroyo_control::optimizers::{
    CombinedOptimizer, JoinOptimizer, JoinRewriter, JoinStrategy, OptimizerKind, PredicatePushdown, ProjectionPushdown,
    TableSize,
};

fn names(v: &[&str]) -> Vec<String> {
    v.iter().map(|s| s.to_string()).collect()
}

fn scan(table: &str, fields: &[&str]) -> Plan {
    Plan::TableScan(TableScanNode {
        table_name: table.to_string(),
        table_fields: names(fields),
        projection: None,
        projected_fields: names(fields),
        filter: None,
    })
}

fn col(name: &str) -> PlanExpr {
    PlanExpr::Column(name.to_string())
}

fn lit(text: &str) -> PlanExpr {
    PlanExpr::Literal(text.to_string())
}

fn bin(left: PlanExpr, op: BinaryOp, right: PlanExpr) -> PlanExpr {
    PlanExpr::Binary { left: Box::new(left), op, right: Box::new(right) }
}

fn stream_fields() -> Vec<&'static str> {
    vec!["id", "name", "value", "event_time"]
}

fn test_table_scan(table_name: &str, is_dimension: bool) -> Plan {
    let name = if is_dimension { format!("dimension_{}", table_name) } else { table_name.to_string() };
    scan(&name, &stream_fields())
}

fn join_of(left: Plan, right: Plan, join_type: JoinKind, filter: Option<PlanExpr>) -> Plan {
    let mut fields = output_fields(&left).clone();
    fields.extend(output_fields(&right).iter().cloned());
    Plan::Join(JoinNode {
        left: Box::new(left),
        right: Box::new(right),
        on: vec![(col("id"), col("id"))],
        filter,
        join_type,
        fields,
    })
}

fn window_condition() -> PlanExpr {
    PlanExpr::Between {
        expr: Box::new(col("event_time")),
        negated: false,
        low: Box::new(bin(col("event_time"), BinaryOp::Minus, lit("300000"))),
        high: Box::new(bin(col("event_time"), BinaryOp::Plus, lit("300000"))),
    }
}

fn filter(predicate: PlanExpr, input: Plan) -> Plan {
    Plan::Filter(FilterNode { predicate, input: Box::new(input) })
}

fn projection(columns: &[&str], input: Plan) -> Plan {
    Plan::Projection(ProjectionNode {
        exprs: columns.iter().map(|c| col(c)).collect(),
        fields: names(columns),
        input: Box::new(input),
    })
}

fn projection_filter_scan() -> Plan {
    let table = scan("test_table", &["id", "name", "value"]);
    let f = filter(bin(col("value"), BinaryOp::Gt, lit("10.0")), table);
    projection(&["id", "name"], f)
}

#[test]
fn test_join_optimizer() {
    let stream_table = test_table_scan("stream", false);
    let dimension_table = test_table_scan("table", true);
    let join = join_of(stream_table, dimension_table, JoinKind::Inner, None);
    let optimizer = JoinOptimizer::new();
    let optimized_plan = optimizer.optimize(join);
    assert!(plan_contains_node_type(&optimized_plan, "Join"));
}

#[test]
fn test_join_rewriter() {
    let stream_table_1 = test_table_scan("stream1", false);
    let stream_table_2 = test_table_scan("stream2", false);
    let join = join_of(stream_table_1, stream_table_2, JoinKind::Inner, Some(window_condition()));
    let rewriter = JoinRewriter::new();
    let rewritten_plan = rewriter.optimize(join);
    assert!(plan_contains_node_type(&rewritten_plan, "Join"));
}

#[test]
fn test_combined_optimizer() {
    let stream_table = test_table_scan("stream", false);
    let dimension_table = test_table_scan("table", true);
    let join = join_of(stream_table, dimension_table, JoinKind::Inner, None);
    let optimizer = CombinedOptimizer::new();
    let optimized_plan = optimizer.optimize(join);
    assert!(plan_contains_node_type(&optimized_plan, "Join"));
}

#[test]
fn combined_optimizer_order() {
    let optimizer = CombinedOptimizer::new();
    assert_eq!(
        optimizer.optimizers(),
        &vec![
            OptimizerKind::JoinRewriter,
            OptimizerKind::JoinOptimizer,
            OptimizerKind::PredicatePushdown,
            OptimizerKind::ProjectionPushdown
        ]
    );
}

#[test]
fn join_strategies() {
    let optimizer = JoinOptimizer::new();
    let broadcast_right = join_of(test_table_scan("stream", false), test_table_scan("table", true), JoinKind::Inner, None);
    match &broadcast_right {
        Plan::Join(j) => {
            assert!(!optimizer.has_time_condition(j));
            assert_eq!(optimizer.optimize_join_strategy(j), JoinStrategy::Broadcast { broadcast_left: false });
        }
        _ => panic!("expected a join"),
    }
    let broadcast_left = join_of(test_table_scan("lookup_users", false), test_table_scan("clicks", false), JoinKind::Left, None);
    match &broadcast_left {
        Plan::Join(j) => assert_eq!(optimizer.optimize_join_strategy(j), JoinStrategy::Broadcast { broadcast_left: true }),
        _ => panic!("expected a join"),
    }
    let partitioned = join_of(test_table_scan("a", false), test_table_scan("b", false), JoinKind::Inner, None);
    match &partitioned {
        Plan::Join(j) => assert_eq!(optimizer.optimize_join_strategy(j), JoinStrategy::Partitioned),
        _ => panic!("expected a join"),
    }
    let windowed = join_of(test_table_scan("a", false), test_table_scan("b", true), JoinKind::Inner, Some(window_condition()));
    match &windowed {
        Plan::Join(j) => {
            assert!(optimizer.has_time_condition(j));
            assert_eq!(
                optimizer.optimize_join_strategy(j),
                JoinStrategy::Window { left_size: TableSize::Large, right_size: TableSize::Small }
            );
        }
        _ => panic!("expected a join"),
    }
    let on_time = Plan::Join(JoinNode {
        left: Box::new(scan("a", &["ts"])),
        right: Box::new(scan("b", &["id"])),
        on: vec![(col("created_date"), col("id"))],
        filter: None,
        join_type: JoinKind::Inner,
        fields: names(&["ts", "id"]),
    });
    match &on_time {
        Plan::Join(j) => assert!(optimizer.has_time_condition(j)),
        _ => panic!("expected a join"),
    }
}

#[test]
fn time_conditions() {
    let optimizer = JoinOptimizer::new();
    assert!(optimizer.is_time_condition(&bin(col("a.Event_Time"), BinaryOp::Lt, col("b.x"))));
    assert!(optimizer.is_time_condition(&bin(
        bin(col("a"), BinaryOp::Eq, col("b")),
        BinaryOp::Or,
        bin(col("x"), BinaryOp::GtEq, col("updated_date"))
    )));
    assert!(!optimizer.is_time_condition(&bin(col("event_time"), BinaryOp::Plus, lit("1"))));
    assert!(!optimizer.is_time_condition(&col("event_time")));
    assert!(optimizer.is_time_column(&bin(col("x"), BinaryOp::Plus, col("TIMESTAMP"))));
    assert!(!optimizer.is_time_column(&lit("time")));
}

#[test]
fn lookup_and_window_joins() {
    let rewriter = JoinRewriter::new();
    let lookup = join_of(test_table_scan("stream", false), scan("Dim_Users", &["id"]), JoinKind::Left, None);
    match &lookup {
        Plan::Join(j) => {
            assert!(rewriter.is_dimension_table(&j.right));
            assert!(rewriter.can_use_lookup_join(j));
            assert!(!rewriter.can_use_window_join(j));
        }
        _ => panic!("expected a join"),
    }
    let full = join_of(test_table_scan("stream", false), scan("dim", &["id"]), JoinKind::Full, None);
    match &full {
        Plan::Join(j) => assert!(!rewriter.can_use_lookup_join(j)),
        _ => panic!("expected a join"),
    }
    let windowed = join_of(test_table_scan("s1", false), test_table_scan("s2", false), JoinKind::Inner, Some(window_condition()));
    match &windowed {
        Plan::Join(j) => {
            assert!(rewriter.can_use_window_join(j));
            assert!(!rewriter.can_use_lookup_join(j));
        }
        _ => panic!("expected a join"),
    }
    let compared = bin(col("event_time"), BinaryOp::Lt, col("other_time"));
    assert!(!rewriter.has_time_window_condition(&compared));
    assert!(rewriter.has_time_window_condition(&bin(compared, BinaryOp::And, window_condition())));
}

#[test]
fn table_size_estimates() {
    let optimizer = JoinOptimizer::new();
    let dim = filter(lit("true"), scan("customer_dimension", &["id"]));
    assert_eq!(optimizer.estimate_table_size(&dim), TableSize::Small);
    assert!(optimizer.estimate_table_size(&dim).is_small());
    let fact = projection(&["id"], scan("orders", &["id"]));
    assert_eq!(optimizer.estimate_table_size(&fact), TableSize::Large);
    let agg = Plan::Aggregate { input: Box::new(scan("lookup", &["id"])), fields: names(&["n"]) };
    assert_eq!(optimizer.estimate_table_size(&agg), TableSize::Medium);
    let join = join_of(scan("lookup", &["id"]), scan("dimension", &["id"]), JoinKind::Inner, None);
    assert_eq!(optimizer.estimate_table_size(&join), TableSize::Large);
    assert!(!TableSize::Medium.is_small());
    assert!(optimizer.is_time_column_name("Event_Time"));
    assert!(optimizer.is_time_column_name("created_DATE"));
    assert!(!optimizer.is_time_column_name("user_id"));
}

#[test]
fn predicate_pushdown_into_a_scan_that_has_the_columns() {
    let optimized = PredicatePushdown::new().optimize(projection_filter_scan());
    assert!(plan_contains_node_type(&optimized, "Projection"));
    assert!(plan_contains_node_type(&optimized, "TableScan"));
    assert!(!plan_contains_node_type(&optimized, "Filter"));
}

#[test]
fn a_predicate_pushed_into_a_scan_is_applied_by_the_scan() {
    let predicate = || bin(col("value"), BinaryOp::Gt, lit("100"));
    let plan = filter(predicate(), scan("t", &["id", "value"]));
    let optimized = PredicatePushdown::new().optimize(plan);
    let scans = get_table_scans(&optimized);
    assert_eq!(scans.len(), 1);
    assert!(get_filters(&optimized).is_empty());
    assert_eq!(format!("{:?}", scans[0].filter), format!("{:?}", Some(predicate())));
}

#[test]
fn predicates_pushed_into_a_scan_are_conjoined() {
    let inner = || bin(col("id"), BinaryOp::Eq, lit("1"));
    let outer = || bin(col("value"), BinaryOp::Gt, lit("100"));
    let plan = filter(outer(), filter(inner(), scan("t", &["id", "value"])));
    let optimized = PredicatePushdown::new().optimize(plan);
    let scans = get_table_scans(&optimized);
    assert!(get_filters(&optimized).is_empty());
    assert_eq!(format!("{:?}", scans[0].filter), format!("{:?}", Some(bin(inner(), BinaryOp::And, outer()))));
}

#[test]
fn predicate_pushdown_keeps_a_filter_on_a_missing_column() {
    let plan = filter(bin(col("missing"), BinaryOp::Gt, lit("1")), scan("t", &["id"]));
    let optimized = PredicatePushdown::new().optimize(plan);
    assert_eq!(get_filters(&optimized).len(), 1);
}

#[test]
fn projection_pushdown_leaves_a_projection_over_a_filter() {
    let optimized = ProjectionPushdown::new().optimize(projection_filter_scan());
    assert!(plan_contains_node_type(&optimized, "Projection"));
    assert!(plan_contains_node_type(&optimized, "Filter"));
    assert!(plan_contains_node_type(&optimized, "TableScan"));
    assert_eq!(get_table_scans(&optimized)[0].projection, None);
}

#[test]
fn combined_optimizer_narrows_the_scan() {
    let optimized = CombinedOptimizer::new().optimize(projection_filter_scan());
    assert!(plan_contains_node_type(&optimized, "Projection"));
    assert!(!plan_contains_node_type(&optimized, "Filter"));
    let scans = get_table_scans(&optimized);
    assert_eq!(scans.len(), 1);
    assert_eq!(scans[0].projection, Some(vec![0, 1]));
    assert_eq!(scans[0].projected_fields, names(&["id", "name", "value"]));
}

#[test]
fn projection_pushdown_keeps_the_existing_order_of_positions() {
    let table = Plan::TableScan(TableScanNode {
        table_name: "t".to_string(),
        table_fields: names(&["a", "b", "c", "d"]),
        projection: Some(vec![3, 0, 2]),
        projected_fields: names(&["d", "a", "c"]),
        filter: None,
    });
    let optimized = ProjectionPushdown::new().optimize(projection(&["c", "d"], table));
    let scans = get_table_scans(&optimized);
    assert_eq!(scans[0].projection, Some(vec![3, 2]));
    assert_eq!(output_fields(&optimized), &names(&["c", "d"]));
}

#[test]
fn predicate_pushdown_splits_a_filter_over_a_join() {
    let join = Plan::Join(JoinNode {
        left: Box::new(scan("l", &["x", "z"])),
        right: Box::new(scan("r", &["y"])),
        on: vec![(col("x"), col("y"))],
        filter: None,
        join_type: JoinKind::Inner,
        fields: names(&["x", "z", "y"]),
    });
    let predicate = bin(
        bin(bin(col("x"), BinaryOp::Gt, lit("1")), BinaryOp::And, bin(col("y"), BinaryOp::Eq, lit("2"))),
        BinaryOp::And,
        bin(bin(col("x"), BinaryOp::Eq, col("y")), BinaryOp::And, bin(col("z"), BinaryOp::Lt, lit("3"))),
    );
    let optimized = PredicatePushdown::new().optimize(filter(predicate, join));
    match &optimized {
        Plan::Filter(top) => {
            assert!(matches!(&top.predicate, PlanExpr::Binary { op: BinaryOp::Eq, .. }));
            match top.input.as_ref() {
                Plan::Join(j) => {
                    match j.left.as_ref() {
                        Plan::Filter(lf) => {
                            assert_eq!(expr_to_columns(&lf.predicate), names(&["x", "z"]));
                            match &lf.predicate {
                                PlanExpr::Binary { op, .. } => assert_eq!(*op, BinaryOp::And),
                                _ => panic!("expected a conjunction"),
                            }
                        }
                        _ => panic!("expected a filter on the left input"),
                    }
                    match j.right.as_ref() {
                        Plan::Filter(rf) => assert_eq!(expr_to_columns(&rf.predicate), names(&["y"])),
                        _ => panic!("expected a filter on the right input"),
                    }
                }
                _ => panic!("expected a join below the filter"),
            }
        }
        _ => panic!("expected a filter above the join"),
    }
    assert_eq!(get_filters(&optimized).len(), 1);
    assert_eq!(get_table_scans(&optimized).len(), 2);
}

#[test]
fn split_conjunction_keeps_order() {
    let pushdown = PredicatePushdown::new();
    let e = bin(bin(col("a"), BinaryOp::And, col("b")), BinaryOp::And, bin(col("c"), BinaryOp::Or, col("d")));
    let parts = pushdown.split_conjunction(e);
    assert_eq!(parts.len(), 3);
    assert_eq!(expr_to_columns(&parts[0]), names(&["a"]));
    assert_eq!(expr_to_columns(&parts[1]), names(&["b"]));
    assert_eq!(expr_to_columns(&parts[2]), names(&["c", "d"]));
}

#[test]
fn a_filter_with_nothing_to_push_stays_above_the_join() {
    let join = Plan::Join(JoinNode {
        left: Box::new(scan("l", &["x"])),
        right: Box::new(scan("r", &["y"])),
        on: vec![],
        filter: None,
        join_type: JoinKind::Inner,
        fields: names(&["x", "y"]),
    });
    let pushdown = PredicatePushdown::new();
    let (plan, changed) = pushdown.f_up(filter(bin(col("x"), BinaryOp::Eq, col("y")), join));
    assert!(!changed);
    assert!(matches!(plan, Plan::Filter(_)));
}

#[test]
fn projection_pushdown_trims_join_inputs() {
    let join = Plan::Join(JoinNode {
        left: Box::new(scan("l", &["x", "z", "x"])),
        right: Box::new(scan("r", &["y"])),
        on: vec![(col("x"), col("y"))],
        filter: None,
        join_type: JoinKind::Inner,
        fields: names(&["x", "z", "x", "y"]),
    });
    let optimized = ProjectionPushdown::new().optimize(projection(&["x"], join));
    match &optimized {
        Plan::Projection(top) => match top.input.as_ref() {
            Plan::Join(j) => {
                match j.left.as_ref() {
                    Plan::Projection(lp) => {
                        assert_eq!(lp.fields, names(&["x"]));
                        assert_eq!(expr_to_columns(&lp.exprs[0]), names(&["x"]));
                    }
                    _ => panic!("expected a projection on the left input"),
                }
                assert!(matches!(j.right.as_ref(), Plan::TableScan(_)));
            }
            _ => panic!("expected a join"),
        },
        _ => panic!("expected a projection"),
    }
}

#[test]
fn plan_walks() {
    let plan = Plan::Other {
        inputs: PlanInputs::Input {
            plan: Box::new(Plan::Sort { input: Box::new(projection_filter_scan()) }),
            rest: Box::new(PlanInputs::Input {
                plan: Box::new(Plan::Limit { input: Box::new(filter(lit("true"), scan("second", &["a"]))) }),
                rest: Box::new(PlanInputs::End),
            }),
        },
        fields: names(&["id"]),
    };
    assert!(plan_contains_node_type(&plan, "Sort"));
    assert!(plan_contains_node_type(&plan, "Limit"));
    assert!(!plan_contains_node_type(&plan, "Join"));
    assert!(!plan_contains_node_type(&plan, "Other"));
    let scans = get_table_scans(&plan);
    assert_eq!(scans.len(), 2);
    assert_eq!(scans[0].table_name, "test_table");
    assert_eq!(scans[1].table_name, "second");
    assert_eq!(get_filters(&plan).len(), 2);
    assert_eq!(get_projections(&plan).len(), 1);
    assert_eq!(output_fields(&plan), &names(&["id"]));
}

#[test]
fn columns_in_written_order() {
    let e = PlanExpr::Other(vec![bin(col("b"), BinaryOp::Plus, col("a")), lit("1"), window_condition()]);
    assert_eq!(expr_to_columns(&e), names(&["b", "a", "event_time", "event_time", "event_time"]));
}
