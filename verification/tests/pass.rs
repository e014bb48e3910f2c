use nonnull_requirements::analysis::NonNullRequirements;
use nonnull_requirements::columns::ColumnSet;
use nonnull_requirements::gets::GetsTable;
use nonnull_requirements::relation::{AggregateExpr, Id, RelationExpr, TableFunc};
use nonnull_requirements::scalar::{BinaryFunc, Datum, ScalarExpr, UnaryFunc};

fn constant(rows: Vec<(Vec<Datum>, isize)>, typ: Vec<bool>) -> RelationExpr {
    RelationExpr::Constant { rows, typ }
}

fn col(c: usize) -> ScalarExpr {
    ScalarExpr::Column(c)
}

fn set(cols: &[usize]) -> ColumnSet {
    let mut s = ColumnSet::new();
    for c in cols {
        s.insert(*c);
    }
    s
}

fn run(rel: &mut RelationExpr, cols: &[usize]) {
    let mut gets = GetsTable::new();
    NonNullRequirements.action(rel, set(cols), &mut gets);
}

#[test]
fn constant_rows_violating_requirement_are_deleted() {
    let mut rel = constant(
        vec![
            (vec![Datum::Null, Datum::Int64(1)], 1),
            (vec![Datum::Int64(7), Datum::Null], 2),
            (vec![Datum::Int64(3), Datum::Int64(4)], 1),
        ],
        vec![true, true],
    );
    run(&mut rel, &[0]);
    assert!(
        rel == constant(
            vec![
                (vec![Datum::Int64(7), Datum::Null], 2),
                (vec![Datum::Int64(3), Datum::Int64(4)], 1),
            ],
            vec![true, true],
        )
    );
}

#[test]
fn constant_without_requirements_is_untouched() {
    let rows = vec![(vec![Datum::Null], 1), (vec![Datum::Int64(2)], 1)];
    let mut rel = constant(rows.clone(), vec![true]);
    run(&mut rel, &[]);
    assert!(rel == constant(rows, vec![true]));
}

#[test]
fn map_with_required_null_literal_becomes_empty() {
    let input = constant(vec![(vec![Datum::Int64(1)], 1)], vec![false]);
    let mut rel = RelationExpr::MapCols {
        input: Box::new(input),
        scalars: vec![ScalarExpr::Literal(Datum::Null)],
    };
    run(&mut rel, &[1]);
    assert!(rel == constant(vec![], vec![false, true]));
}

#[test]
fn map_without_required_null_literal_keeps_its_shape() {
    let input = constant(
        vec![(vec![Datum::Null], 1), (vec![Datum::Int64(5)], 1)],
        vec![true],
    );
    let mut rel = RelationExpr::MapCols {
        input: Box::new(input),
        scalars: vec![ScalarExpr::CallUnary {
            func: UnaryFunc::NegInt64,
            expr: Box::new(col(0)),
        }],
    };
    // Requiring the computed column requires its operand, column 0.
    run(&mut rel, &[1]);
    assert!(
        rel == RelationExpr::MapCols {
            input: Box::new(constant(vec![(vec![Datum::Int64(5)], 1)], vec![true])),
            scalars: vec![ScalarExpr::CallUnary {
                func: UnaryFunc::NegInt64,
                expr: Box::new(col(0)),
            }],
        }
    );
}

#[test]
fn filter_over_map_requires_both_addends() {
    // Filter (column2 > 0) over Map appending column2 = column0 + column1.
    let input = constant(
        vec![
            (vec![Datum::Null, Datum::Int64(1)], 1),
            (vec![Datum::Int64(1), Datum::Null], 1),
            (vec![Datum::Int64(1), Datum::Int64(2)], 1),
        ],
        vec![true, true],
    );
    let mapped = RelationExpr::MapCols {
        input: Box::new(input),
        scalars: vec![ScalarExpr::CallBinary {
            func: BinaryFunc::AddInt64,
            expr1: Box::new(col(0)),
            expr2: Box::new(col(1)),
        }],
    };
    let mut rel = RelationExpr::Filter {
        input: Box::new(mapped),
        predicates: vec![ScalarExpr::CallBinary {
            func: BinaryFunc::Gt,
            expr1: Box::new(col(2)),
            expr2: Box::new(ScalarExpr::Literal(Datum::Int64(0))),
        }],
    };
    run(&mut rel, &[]);
    match &rel {
        RelationExpr::Filter { input, .. } => match input.as_ref() {
            RelationExpr::MapCols { input, .. } => match input.as_ref() {
                RelationExpr::Constant { rows, .. } => {
                    assert_eq!(rows.len(), 1);
                    assert!(rows[0] == (vec![Datum::Int64(1), Datum::Int64(2)], 1));
                }
                other => panic!("map input not a constant: {:?}", other),
            },
            other => panic!("filter input not a map: {:?}", other),
        },
        other => panic!("not a filter: {:?}", other),
    }
}

#[test]
fn non_propagating_predicate_imposes_nothing() {
    // And can be non-null with a null argument, so its columns stay optional.
    let rows = vec![(vec![Datum::Null, Datum::True], 1)];
    let mut rel = RelationExpr::Filter {
        input: Box::new(constant(rows.clone(), vec![true, true])),
        predicates: vec![ScalarExpr::CallBinary {
            func: BinaryFunc::And,
            expr1: Box::new(col(0)),
            expr2: Box::new(col(1)),
        }],
    };
    run(&mut rel, &[]);
    match &rel {
        RelationExpr::Filter { input, .. } => match input.as_ref() {
            RelationExpr::Constant { rows: kept, .. } => assert!(*kept == rows),
            other => panic!("filter input not a constant: {:?}", other),
        },
        other => panic!("not a filter: {:?}", other),
    }
}

#[test]
fn union_branches_receive_the_set_independently() {
    let branch = || {
        constant(
            vec![(vec![Datum::Null], 1), (vec![Datum::Int64(9)], 1)],
            vec![true],
        )
    };
    let pruned = || constant(vec![(vec![Datum::Int64(9)], 1)], vec![true]);
    let mut rel = RelationExpr::Union {
        base: Box::new(branch()),
        inputs: vec![branch(), branch()],
    };
    run(&mut rel, &[0]);
    assert!(
        rel == RelationExpr::Union {
            base: Box::new(pruned()),
            inputs: vec![pruned(), pruned()],
        }
    );
}

#[test]
fn let_binding_with_disjoint_uses_is_not_pruned() {
    // Two Gets require {0} and {1}; the intersection is empty, so the
    // binding's value keeps its null rows.
    let value_rows = vec![(vec![Datum::Null, Datum::Null], 1)];
    let get = || RelationExpr::Get {
        id: Id::Local(0),
        typ: vec![true, true],
    };
    let use_of = |c: usize| RelationExpr::Filter {
        input: Box::new(get()),
        predicates: vec![col(c)],
    };
    let mut rel = RelationExpr::Let {
        id: 0,
        value: Box::new(constant(value_rows.clone(), vec![true, true])),
        body: Box::new(RelationExpr::Union {
            base: Box::new(use_of(0)),
            inputs: vec![use_of(1)],
        }),
    };
    run(&mut rel, &[]);
    match &rel {
        RelationExpr::Let { value, .. } => match value.as_ref() {
            RelationExpr::Constant { rows, .. } => assert!(*rows == value_rows),
            other => panic!("value not a constant: {:?}", other),
        },
        other => panic!("not a let: {:?}", other),
    }
}

#[test]
fn let_binding_with_agreeing_uses_is_pruned() {
    let get = || RelationExpr::Get {
        id: Id::Local(4),
        typ: vec![true],
    };
    let use_of = || RelationExpr::Filter {
        input: Box::new(get()),
        predicates: vec![col(0)],
    };
    let mut rel = RelationExpr::Let {
        id: 4,
        value: Box::new(constant(
            vec![(vec![Datum::Null], 1), (vec![Datum::Int64(1)], 1)],
            vec![true],
        )),
        body: Box::new(RelationExpr::Union {
            base: Box::new(use_of()),
            inputs: vec![use_of()],
        }),
    };
    run(&mut rel, &[]);
    match &rel {
        RelationExpr::Let { value, .. } => match value.as_ref() {
            RelationExpr::Constant { rows, .. } => {
                assert!(*rows == vec![(vec![Datum::Int64(1)], 1)])
            }
            other => panic!("value not a constant: {:?}", other),
        },
        other => panic!("not a let: {:?}", other),
    }
}

#[test]
fn unused_let_binding_is_left_alone() {
    let value_rows = vec![(vec![Datum::Null], 1)];
    let mut rel = RelationExpr::Let {
        id: 1,
        value: Box::new(constant(value_rows.clone(), vec![true])),
        body: Box::new(constant(vec![(vec![Datum::Int64(2)], 1)], vec![false])),
    };
    run(&mut rel, &[0]);
    match &rel {
        RelationExpr::Let { value, .. } => match value.as_ref() {
            RelationExpr::Constant { rows, .. } => assert!(*rows == value_rows),
            other => panic!("value not a constant: {:?}", other),
        },
        other => panic!("not a let: {:?}", other),
    }
}

#[test]
fn join_equivalence_propagates_nonnullability() {
    // Column 0 (input A) is non-nullable and equated with column 1, which is
    // column 0 of input B: B's null rows cannot match and are deleted.
    let a = constant(vec![(vec![Datum::Int64(1)], 1)], vec![false]);
    let b = constant(
        vec![(vec![Datum::Null], 1), (vec![Datum::Int64(2)], 1)],
        vec![true],
    );
    let mut rel = RelationExpr::Join {
        inputs: vec![a, b],
        equivalences: vec![vec![col(0), col(1)]],
    };
    run(&mut rel, &[]);
    match &rel {
        RelationExpr::Join { inputs, .. } => match &inputs[1] {
            RelationExpr::Constant { rows, .. } => {
                assert!(*rows == vec![(vec![Datum::Int64(2)], 1)])
            }
            other => panic!("second input not a constant: {:?}", other),
        },
        other => panic!("not a join: {:?}", other),
    }
}

#[test]
fn join_without_constraint_leaves_nullable_inputs_alone() {
    let a = constant(vec![(vec![Datum::Null], 1)], vec![true]);
    let b = constant(vec![(vec![Datum::Null], 1)], vec![true]);
    let mut rel = RelationExpr::Join {
        inputs: vec![a, b],
        equivalences: vec![vec![col(0), col(1)]],
    };
    run(&mut rel, &[]);
    match &rel {
        RelationExpr::Join { inputs, .. } => {
            for input in inputs {
                match input {
                    RelationExpr::Constant { rows, .. } => assert_eq!(rows.len(), 1),
                    other => panic!("input not a constant: {:?}", other),
                }
            }
        }
        other => panic!("not a join: {:?}", other),
    }
}

#[test]
fn flatmap_empty_on_null_input_requires_its_arguments() {
    let input = || {
        constant(
            vec![(vec![Datum::Null], 1), (vec![Datum::Int64(3)], 1)],
            vec![true],
        )
    };
    let mut series = RelationExpr::FlatMap {
        input: Box::new(input()),
        func: TableFunc::GenerateSeriesInt64,
        exprs: vec![col(0)],
    };
    run(&mut series, &[]);
    match &series {
        RelationExpr::FlatMap { input, .. } => match input.as_ref() {
            RelationExpr::Constant { rows, .. } => {
                assert!(*rows == vec![(vec![Datum::Int64(3)], 1)])
            }
            other => panic!("input not a constant: {:?}", other),
        },
        other => panic!("not a flat map: {:?}", other),
    }
    let mut wrap = RelationExpr::FlatMap {
        input: Box::new(input()),
        func: TableFunc::Wrap { width: 1 },
        exprs: vec![col(0)],
    };
    run(&mut wrap, &[]);
    match &wrap {
        RelationExpr::FlatMap { input, .. } => match input.as_ref() {
            RelationExpr::Constant { rows, .. } => assert_eq!(rows.len(), 2),
            other => panic!("input not a constant: {:?}", other),
        },
        other => panic!("not a flat map: {:?}", other),
    }
}

#[test]
fn project_translates_requirements_to_source_columns() {
    let input = constant(
        vec![
            (vec![Datum::Int64(1), Datum::Null], 1),
            (vec![Datum::Null, Datum::Int64(2)], 1),
        ],
        vec![true, true],
    );
    let mut rel = RelationExpr::Project {
        input: Box::new(input),
        outputs: vec![1],
    };
    run(&mut rel, &[0]);
    match &rel {
        RelationExpr::Project { input, .. } => match input.as_ref() {
            RelationExpr::Constant { rows, .. } => {
                assert!(*rows == vec![(vec![Datum::Null, Datum::Int64(2)], 1)])
            }
            other => panic!("input not a constant: {:?}", other),
        },
        other => panic!("not a project: {:?}", other),
    }
}

#[test]
fn reduce_group_key_and_sole_aggregate_contribute() {
    let input = || {
        constant(
            vec![
                (vec![Datum::Null, Datum::Int64(1)], 1),
                (vec![Datum::Int64(1), Datum::Null], 1),
            ],
            vec![true, true],
        )
    };
    // Requiring the group-key column requires its source column 0.
    let mut keyed = RelationExpr::Reduce {
        input: Box::new(input()),
        group_key: vec![col(0)],
        aggregates: vec![AggregateExpr {
            expr: col(1),
            distinct: false,
        }],
    };
    run(&mut keyed, &[0]);
    match &keyed {
        RelationExpr::Reduce { input, .. } => match input.as_ref() {
            RelationExpr::Constant { rows, .. } => {
                assert!(*rows == vec![(vec![Datum::Int64(1), Datum::Null], 1)])
            }
            other => panic!("input not a constant: {:?}", other),
        },
        other => panic!("not a reduce: {:?}", other),
    }
    // Requiring the sole aggregate's column requires the aggregate argument.
    let mut agg = RelationExpr::Reduce {
        input: Box::new(input()),
        group_key: vec![col(0)],
        aggregates: vec![AggregateExpr {
            expr: col(1),
            distinct: false,
        }],
    };
    run(&mut agg, &[1]);
    match &agg {
        RelationExpr::Reduce { input, .. } => match input.as_ref() {
            RelationExpr::Constant { rows, .. } => {
                assert!(*rows == vec![(vec![Datum::Null, Datum::Int64(1)], 1)])
            }
            other => panic!("input not a constant: {:?}", other),
        },
        other => panic!("not a reduce: {:?}", other),
    }
}

#[test]
fn passthrough_operators_forward_the_set() {
    let source = || {
        constant(
            vec![(vec![Datum::Null], 1), (vec![Datum::Int64(1)], 1)],
            vec![true],
        )
    };
    let mut topk = RelationExpr::TopK {
        input: Box::new(source()),
    };
    run(&mut topk, &[0]);
    assert!(
        topk == RelationExpr::TopK {
            input: Box::new(constant(vec![(vec![Datum::Int64(1)], 1)], vec![true]))
        }
    );
    let mut neg = RelationExpr::Negate {
        input: Box::new(source()),
    };
    run(&mut neg, &[0]);
    match &neg {
        RelationExpr::Negate { input } => match input.as_ref() {
            RelationExpr::Constant { rows, .. } => assert_eq!(rows.len(), 1),
            other => panic!("input not a constant: {:?}", other),
        },
        other => panic!("not a negate: {:?}", other),
    }
    let mut thr = RelationExpr::Threshold {
        input: Box::new(source()),
    };
    run(&mut thr, &[0]);
    match &thr {
        RelationExpr::Threshold { input } => match input.as_ref() {
            RelationExpr::Constant { rows, .. } => assert_eq!(rows.len(), 1),
            other => panic!("input not a constant: {:?}", other),
        },
        other => panic!("not a threshold: {:?}", other),
    }
    let mut arr = RelationExpr::ArrangeBy {
        input: Box::new(source()),
    };
    run(&mut arr, &[0]);
    match &arr {
        RelationExpr::ArrangeBy { input } => match input.as_ref() {
            RelationExpr::Constant { rows, .. } => assert_eq!(rows.len(), 1),
            other => panic!("input not a constant: {:?}", other),
        },
        other => panic!("not an arrange: {:?}", other),
    }
}

#[test]
fn transform_is_idempotent_on_a_concrete_plan() {
    let build = || {
        let input = constant(
            vec![
                (vec![Datum::Null, Datum::Int64(1)], 1),
                (vec![Datum::Int64(1), Datum::Int64(2)], 1),
            ],
            vec![true, true],
        );
        RelationExpr::Filter {
            input: Box::new(input),
            predicates: vec![ScalarExpr::CallBinary {
                func: BinaryFunc::Eq,
                expr1: Box::new(col(0)),
                expr2: Box::new(col(1)),
            }],
        }
    };
    let mut once = build();
    NonNullRequirements.transform(&mut once);
    let mut twice = build();
    NonNullRequirements.transform(&mut twice);
    NonNullRequirements.transform(&mut twice);
    assert!(once == twice);
}

#[test]
fn is_literal_null_recognizes_only_the_null_literal() {
    assert!(ScalarExpr::Literal(Datum::Null).is_literal_null());
    assert!(!ScalarExpr::Literal(Datum::Int64(0)).is_literal_null());
    assert!(!col(0).is_literal_null());
}

#[test]
fn isnull_does_not_propagate_nulls() {
    // IS NULL is defined on null input, so its operand is never required.
    let rows = vec![(vec![Datum::Null], 1)];
    let mut rel = RelationExpr::Filter {
        input: Box::new(constant(rows.clone(), vec![true])),
        predicates: vec![ScalarExpr::CallUnary {
            func: UnaryFunc::IsNull,
            expr: Box::new(col(0)),
        }],
    };
    run(&mut rel, &[]);
    match &rel {
        RelationExpr::Filter { input, .. } => match input.as_ref() {
            RelationExpr::Constant { rows: kept, .. } => assert!(*kept == rows),
            other => panic!("input not a constant: {:?}", other),
        },
        other => panic!("not a filter: {:?}", other),
    }
}

#[test]
fn map_requirements_flow_through_chained_appended_columns() {
    // column1 = column0, column2 = column1: requiring column 2 must reach
    // column 0, because appended columns are processed highest first.
    let input = constant(
        vec![(vec![Datum::Null], 1), (vec![Datum::Int64(8)], 1)],
        vec![true],
    );
    let mut rel = RelationExpr::MapCols {
        input: Box::new(input),
        scalars: vec![col(0), col(1)],
    };
    run(&mut rel, &[2]);
    match &rel {
        RelationExpr::MapCols { input, .. } => match input.as_ref() {
            RelationExpr::Constant { rows, .. } => {
                assert!(*rows == vec![(vec![Datum::Int64(8)], 1)])
            }
            other => panic!("map input not a constant: {:?}", other),
        },
        other => panic!("not a map: {:?}", other),
    }
}

#[test]
fn inner_let_shadows_outer_binding_with_same_identifier() {
    // The inner Let rebinds identifier 3; the Get refers to the inner
    // binding, so the outer value must stay untouched while the inner one is
    // pruned.
    let outer_rows = vec![(vec![Datum::Null], 1)];
    let inner = RelationExpr::Let {
        id: 3,
        value: Box::new(constant(
            vec![(vec![Datum::Null], 1), (vec![Datum::Int64(6)], 1)],
            vec![true],
        )),
        body: Box::new(RelationExpr::Filter {
            input: Box::new(RelationExpr::Get {
                id: Id::Local(3),
                typ: vec![true],
            }),
            predicates: vec![col(0)],
        }),
    };
    let mut rel = RelationExpr::Let {
        id: 3,
        value: Box::new(constant(outer_rows.clone(), vec![true])),
        body: Box::new(inner),
    };
    run(&mut rel, &[]);
    match &rel {
        RelationExpr::Let { value, body, .. } => {
            match value.as_ref() {
                RelationExpr::Constant { rows, .. } => assert!(*rows == outer_rows),
                other => panic!("outer value not a constant: {:?}", other),
            }
            match body.as_ref() {
                RelationExpr::Let { value, .. } => match value.as_ref() {
                    RelationExpr::Constant { rows, .. } => {
                        assert!(*rows == vec![(vec![Datum::Int64(6)], 1)])
                    }
                    other => panic!("inner value not a constant: {:?}", other),
                },
                other => panic!("body not a let: {:?}", other),
            }
        }
        other => panic!("not a let: {:?}", other),
    }
}
