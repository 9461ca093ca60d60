use equivalence::class::{AcrossPartitions, ConstExpr, EquivalenceClass};
use equivalence::display::{i32_str, u64_str, usize_str};
use equivalence::expr::{Expr, Operator};
use equivalence::group::EquivalenceGroup;
use equivalence::scalar::ScalarVal;
use equivalence::sort::{SortExpr, SortOptions, SortRequirement};
use equivalence::window_frame::{WindowFrame, WindowFrameBound, WindowFrameUnits};

fn col(name: &str, index: usize) -> Expr {
    Expr::Column { name: name.to_string(), index }
}

fn binary(left: Expr, op: Operator, right: Expr) -> Expr {
    Expr::Binary { op, left: Box::new(left), right: Box::new(right) }
}

#[test]
fn test_number_strings() {
    assert_eq!(u64_str(0), "0");
    assert_eq!(u64_str(7), "7");
    assert_eq!(u64_str(1024), "1024");
    assert_eq!(u64_str(u64::MAX), "18446744073709551615");
    assert_eq!(usize_str(42), "42");
    assert_eq!(i32_str(-17), "-17");
    assert_eq!(i32_str(i32::MIN), "-2147483648");
    assert_eq!(i32_str(5), "5");
}

#[test]
fn test_scalar_display() {
    assert_eq!(ScalarVal::UInt64(Some(9)).display_string(), "9");
    assert_eq!(ScalarVal::UInt64(None).display_string(), "NULL");
    assert_eq!(ScalarVal::Int32(Some(-3)).display_string(), "-3");
    assert_eq!(ScalarVal::Boolean(Some(true)).display_string(), "true");
    assert_eq!(ScalarVal::Utf8(Some("1 DAY".to_string())).display_string(), "1 DAY");
}

#[test]
fn test_expr_display() {
    assert_eq!(col("a", 0).display_string(), "a@0");
    let sum = binary(col("a", 0), Operator::Plus, col("b", 1));
    assert_eq!(sum.display_string(), "a@0 + b@1");
    let nested = binary(
        sum,
        Operator::Multiply,
        Expr::Literal { value: ScalarVal::Int32(Some(2)) },
    );
    assert_eq!(nested.display_string(), "(a@0 + b@1) * 2");
}

#[test]
fn test_class_and_group_display() {
    let cls = EquivalenceClass::new(vec![col("a", 0), col("b", 1)]);
    assert_eq!(cls.display_string(), "[a@0, b@1]");

    let group = EquivalenceGroup::new(vec![
        EquivalenceClass::new(vec![col("a", 0), col("b", 1)]),
        EquivalenceClass::new(vec![col("c", 2), col("d", 3)]),
    ]);
    assert_eq!(group.display_string(), "[[a@0, b@1], [c@2, d@3]]");
}

#[test]
fn test_const_expr_display() {
    let hetero = ConstExpr::new(col("a", 0));
    assert_eq!(hetero.display_string(), "a@0(heterogeneous)");

    let known = ConstExpr::new(col("a", 0))
        .with_across_partitions(AcrossPartitions::Uniform(Some(ScalarVal::Int32(Some(5)))));
    assert_eq!(known.display_string(), "a@0(uniform: 5)");

    let unknown =
        ConstExpr::new(col("b", 1)).with_across_partitions(AcrossPartitions::Uniform(None));
    assert_eq!(unknown.display_string(), "b@1(uniform: unknown)");

    let list = [hetero, known];
    assert_eq!(
        ConstExpr::format_list(&list),
        "a@0(heterogeneous),a@0(uniform: 5)"
    );
}

#[test]
fn test_window_frame_display() {
    let frame = WindowFrame::new_bounds(
        WindowFrameUnits::Rows,
        WindowFrameBound::Preceding(ScalarVal::UInt64(Some(2))),
        WindowFrameBound::Following(ScalarVal::UInt64(Some(1))),
    );
    assert_eq!(frame.display_string(), "ROWS BETWEEN 2 PRECEDING AND 1 FOLLOWING");

    let frame = WindowFrame::new_bounds(
        WindowFrameUnits::Range,
        WindowFrameBound::Preceding(ScalarVal::UInt64(None)),
        WindowFrameBound::CurrentRow,
    );
    assert_eq!(
        frame.display_string(),
        "RANGE BETWEEN UNBOUNDED PRECEDING AND CURRENT ROW"
    );
}

#[test]
fn test_normalize_sort_exprs_collapse() {
    // With a and b equivalent, "a asc, b asc" collapses to "a asc".
    let mut group = EquivalenceGroup::empty();
    group.add_equal_conditions(&col("a", 0), &col("b", 1));

    let options = SortOptions { descending: false, nulls_first: true };
    let sort_exprs = vec![
        SortExpr { expr: col("a", 0), options },
        SortExpr { expr: col("b", 1), options },
    ];
    let normalized = group.normalize_sort_exprs(&sort_exprs);
    assert_eq!(normalized.len(), 1);
    assert_eq!(normalized[0].expr, col("a", 0));
    assert_eq!(normalized[0].options, options);
}

#[test]
fn test_normalize_sort_requirements_keeps_first_options() {
    let mut group = EquivalenceGroup::empty();
    group.add_equal_conditions(&col("a", 0), &col("b", 1));

    let first = SortOptions { descending: true, nulls_first: false };
    let second = SortOptions { descending: false, nulls_first: true };
    let reqs = vec![
        SortRequirement { expr: col("b", 1), options: Some(first) },
        SortRequirement { expr: col("a", 0), options: Some(second) },
        SortRequirement { expr: col("c", 2), options: None },
    ];
    let normalized = group.normalize_sort_requirements(&reqs);
    // Both of the first two normalize to a; the first occurrence's options
    // win, and c stays.
    assert_eq!(normalized.len(), 2);
    assert_eq!(normalized[0].expr, col("a", 0));
    assert_eq!(normalized[0].options, Some(first));
    assert_eq!(normalized[1].expr, col("c", 2));
    assert_eq!(normalized[1].options, None);
}
