use equivalence::class::{AcrossPartitions, ConstExpr, EquivalenceClass, const_exprs_contains};
use equivalence::expr::{Expr, Operator};
use equivalence::group::{EquivalenceGroup, JoinType};
use equivalence::projection::ProjectionMapping;
use equivalence::scalar::ScalarVal;

fn lit(n: i32) -> Expr {
    Expr::Literal { value: ScalarVal::Int32(Some(n)) }
}

fn col(name: &str, index: usize) -> Expr {
    Expr::Column { name: name.to_string(), index }
}

fn binary(left: Expr, op: Operator, right: Expr) -> Expr {
    Expr::Binary { op, left: Box::new(left), right: Box::new(right) }
}

#[test]
fn test_bridge_groups() {
    // First entry in the tuple is argument, second entry is the bridged result
    let test_cases = vec![
        // ------- TEST CASE 1 -----------//
        (
            vec![vec![1, 2, 3], vec![2, 4, 5], vec![11, 12, 9], vec![7, 6, 5]],
            // Expected is compared with set equality. Order of the specific results may change.
            vec![vec![1, 2, 3, 4, 5, 6, 7], vec![9, 11, 12]],
        ),
        // ------- TEST CASE 2 -----------//
        (
            vec![vec![1, 2, 3], vec![3, 4, 5], vec![9, 8, 7], vec![7, 6, 5]],
            // Expected
            vec![vec![1, 2, 3, 4, 5, 6, 7, 8, 9]],
        ),
    ];
    for (entries, expected) in test_cases {
        let entries = entries
            .into_iter()
            .map(|entry| entry.into_iter().map(lit).collect::<Vec<_>>())
            .map(EquivalenceClass::new)
            .collect::<Vec<_>>();
        let expected = expected
            .into_iter()
            .map(|entry| entry.into_iter().map(lit).collect::<Vec<_>>())
            .map(EquivalenceClass::new)
            .collect::<Vec<_>>();
        let mut eq_groups = EquivalenceGroup::new(entries.clone());
        eq_groups.bridge_classes();
        let eq_groups = eq_groups.into_inner();
        let err_msg = format!(
            "error in test entries: {entries:?}, expected: {expected:?}, actual:{eq_groups:?}"
        );
        assert_eq!(eq_groups.len(), expected.len(), "{err_msg}");
        for idx in 0..eq_groups.len() {
            assert_eq!(&eq_groups[idx], &expected[idx], "{err_msg}");
        }
    }
}

#[test]
fn test_remove_redundant_entries_eq_group() {
    let entries = [
        EquivalenceClass::new(vec![lit(1), lit(1), lit(2)]),
        // This group is meaningless should be removed
        EquivalenceClass::new(vec![lit(3), lit(3)]),
        EquivalenceClass::new(vec![lit(4), lit(5), lit(6)]),
    ];
    // Given equivalences classes are not in succinct form.
    // Expected form is the most plain representation that is functionally same.
    let expected = [
        EquivalenceClass::new(vec![lit(1), lit(2)]),
        EquivalenceClass::new(vec![lit(4), lit(5), lit(6)]),
    ];
    let mut eq_groups = EquivalenceGroup::new(entries.to_vec());
    eq_groups.remove_redundant_entries();

    let eq_groups = eq_groups.into_inner();
    assert_eq!(eq_groups.len(), expected.len());
    assert_eq!(eq_groups.len(), 2);

    assert_eq!(eq_groups[0], expected[0]);
    assert_eq!(eq_groups[1], expected[1]);
}

#[test]
fn test_schema_normalize_expr_with_equivalence() {
    let col_a = col("a", 0);
    let col_b = col("b", 1);
    let col_c = col("c", 2);
    // Assume that column a and c are aliases.
    let mut eq_group = EquivalenceGroup::empty();
    eq_group.add_equal_conditions(&col_a, &col_c);

    // Test cases for equivalence normalization,
    // First entry in the tuple is argument, second entry is expected result after normalization.
    let expressions = vec![
        // Normalized version of the column a and c should go to a
        // (by convention all the expressions inside equivalence class are mapped to the first entry
        // in this case a is the first entry in the equivalence class.)
        (&col_a, &col_a),
        (&col_c, &col_a),
        // Cannot normalize column b
        (&col_b, &col_b),
    ];
    for (expr, expected_eq) in expressions {
        assert!(
            expected_eq.eq_expr(&eq_group.normalize_expr(expr)),
            "error in test: expr: {expr:?}"
        );
    }
}

#[test]
fn test_contains_any() {
    let lit_true = Expr::Literal { value: ScalarVal::Boolean(Some(true)) };
    let lit_false = Expr::Literal { value: ScalarVal::Boolean(Some(false)) };
    let lit2 = Expr::Literal { value: ScalarVal::Int32(Some(2)) };
    let lit1 = Expr::Literal { value: ScalarVal::Int32(Some(1)) };
    let col_b_expr = col("b", 1);

    let cls1 = EquivalenceClass::new(vec![lit_true.clone(), lit_false.clone()]);
    let cls2 = EquivalenceClass::new(vec![lit_true.clone(), col_b_expr.clone()]);
    let cls3 = EquivalenceClass::new(vec![lit2.clone(), lit1.clone()]);

    // lit_true is common
    assert!(cls1.contains_any(&cls2));
    // there is no common entry
    assert!(!cls1.contains_any(&cls3));
    assert!(!cls2.contains_any(&cls3));
}

#[test]
fn test_exprs_equal() {
    // Create test columns
    let col_a = col("a", 0);
    let col_b = col("b", 1);
    let col_x = col("x", 2);
    let col_y = col("y", 3);

    // Create test literals
    let lit_1 = Expr::Literal { value: ScalarVal::Int32(Some(1)) };
    let lit_2 = Expr::Literal { value: ScalarVal::Int32(Some(2)) };

    // Create equivalence group with classes (a = x) and (b = y)
    let eq_group = EquivalenceGroup::new(vec![
        EquivalenceClass::new(vec![col_a.clone(), col_x.clone()]),
        EquivalenceClass::new(vec![col_b.clone(), col_y.clone()]),
    ]);

    let test_cases: Vec<(Expr, Expr, bool, &'static str)> = vec![
        // Basic equality tests
        (col_a.clone(), col_a.clone(), true, "Same column should be equal"),
        // Equivalence class tests
        (
            col_a.clone(),
            col_x.clone(),
            true,
            "Columns in same equivalence class should be equal",
        ),
        (
            col_b.clone(),
            col_y.clone(),
            true,
            "Columns in same equivalence class should be equal",
        ),
        (
            col_a.clone(),
            col_b.clone(),
            false,
            "Columns in different equivalence classes should not be equal",
        ),
        // Literal tests
        (lit_1.clone(), lit_1.clone(), true, "Same literal should be equal"),
        (lit_1.clone(), lit_2.clone(), false, "Different literals should not be equal"),
        // Complex expression tests
        (
            binary(col_a.clone(), Operator::Plus, col_b.clone()),
            binary(col_x.clone(), Operator::Plus, col_y.clone()),
            true,
            "Binary expressions with equivalent operands should be equal",
        ),
        (
            binary(col_a.clone(), Operator::Plus, col_b.clone()),
            binary(col_x.clone(), Operator::Plus, col_a.clone()),
            false,
            "Binary expressions with non-equivalent operands should not be equal",
        ),
        (
            binary(col_a.clone(), Operator::Plus, lit_1.clone()),
            binary(col_x.clone(), Operator::Plus, lit_1.clone()),
            true,
            "Binary expressions with equivalent column and same literal should be equal",
        ),
        (
            binary(
                binary(col_a.clone(), Operator::Plus, col_b.clone()),
                Operator::Multiply,
                lit_1.clone(),
            ),
            binary(
                binary(col_x.clone(), Operator::Plus, col_y.clone()),
                Operator::Multiply,
                lit_1.clone(),
            ),
            true,
            "Nested binary expressions with equivalent operands should be equal",
        ),
    ];

    for (left, right, expected, description) in test_cases {
        let actual = eq_group.exprs_equal(&left, &right);
        assert_eq!(
            actual, expected,
            "{description}: Failed comparing {left:?} and {right:?}, expected {expected}, got {actual}"
        );
    }
}

#[test]
fn test_project_classes() {
    // - columns: [a, b, c].
    // - "a" and "b" in the same equivalence class.
    // - then after a+c, b+c projection col(0) and col(1) must be
    // in the same class too.
    let mut group = EquivalenceGroup::empty();
    group.add_equal_conditions(&col("a", 0), &col("b", 1));

    let mapping = ProjectionMapping {
        map: vec![
            (binary(col("a", 0), Operator::Plus, col("c", 2)), col("a+c", 0)),
            (binary(col("b", 1), Operator::Plus, col("c", 2)), col("b+c", 1)),
        ],
    };

    let projected = group.project(&mapping);

    assert!(!projected.is_empty());
    let first_normalized = projected.normalize_expr(&col("a+c", 0));
    let second_normalized = projected.normalize_expr(&col("b+c", 1));

    assert!(first_normalized.eq_expr(&second_normalized));
}

#[test]
fn test_add_equal_conditions_idempotent() {
    let mut once = EquivalenceGroup::empty();
    once.add_equal_conditions(&col("a", 0), &col("b", 1));
    let mut twice = EquivalenceGroup::empty();
    twice.add_equal_conditions(&col("a", 0), &col("b", 1));
    twice.add_equal_conditions(&col("a", 0), &col("b", 1));
    let once = once.into_inner();
    let twice = twice.into_inner();
    assert_eq!(once.len(), twice.len());
    assert_eq!(once[0], twice[0]);
}

#[test]
fn test_add_equal_conditions_cases() {
    let mut group = EquivalenceGroup::empty();
    // Neither side known: a fresh two-member class.
    group.add_equal_conditions(&col("a", 0), &col("b", 1));
    assert_eq!(group.len(), 1);
    // One side known: the other joins its class.
    group.add_equal_conditions(&col("b", 1), &col("c", 2));
    assert_eq!(group.len(), 1);
    // A second, unrelated class.
    group.add_equal_conditions(&col("x", 3), &col("y", 4));
    assert_eq!(group.len(), 2);
    // Both sides known in different classes: the classes merge.
    group.add_equal_conditions(&col("c", 2), &col("x", 3));
    assert_eq!(group.len(), 1);
    let classes = group.into_inner();
    assert_eq!(classes[0].len(), 5);
    // A self-equality on an unknown expression carries no information.
    let mut trivial = EquivalenceGroup::empty();
    trivial.add_equal_conditions(&col("a", 0), &col("a", 0));
    assert!(trivial.is_empty());
}

#[test]
fn test_class_push_and_extend() {
    let mut cls = EquivalenceClass::new_empty();
    assert!(cls.is_empty());
    cls.push(col("a", 0));
    cls.push(col("a", 0));
    cls.push(col("b", 1));
    assert_eq!(cls.len(), 2);
    assert!(cls.contains(&col("a", 0)));
    assert!(cls.contains(&col("b", 1)));
    assert_eq!(cls.canonical_expr(), Some(col("a", 0)));

    let other = EquivalenceClass::new(vec![col("b", 1), col("c", 2)]);
    cls.extend(other);
    assert_eq!(cls.into_vec(), vec![col("a", 0), col("b", 1), col("c", 2)]);
}

#[test]
fn test_class_with_offset() {
    let cls = EquivalenceClass::new(vec![
        col("a", 0),
        binary(col("b", 1), Operator::Plus, lit(1)),
    ]);
    let shifted = cls.with_offset(3);
    assert_eq!(
        shifted.into_vec(),
        vec![col("a", 3), binary(col("b", 4), Operator::Plus, lit(1))]
    );
}

#[test]
fn test_join_inner_offsets_and_on_condition() {
    // Left relation of width 3 with x0 = x1; right relation with y0 = y1.
    let mut left = EquivalenceGroup::empty();
    left.add_equal_conditions(&col("x0", 0), &col("x1", 1));
    let mut right = EquivalenceGroup::empty();
    right.add_equal_conditions(&col("y0", 0), &col("y1", 1));

    let on = vec![(col("x0", 0), col("y0", 0))];
    let joined = left.join(&right, JoinType::Inner, 3, &on);

    // The right-hand columns appear shifted by the left width, and the "on"
    // condition ties x0 to the shifted y0, bridging everything into one
    // class.
    assert_eq!(joined.len(), 1);
    let classes = joined.into_inner();
    assert!(classes[0].contains(&col("x0", 0)));
    assert!(classes[0].contains(&col("x1", 1)));
    assert!(classes[0].contains(&col("y0", 3)));
    assert!(classes[0].contains(&col("y1", 4)));
}

#[test]
fn test_join_left_semi_keeps_left_group() {
    let mut left = EquivalenceGroup::empty();
    left.add_equal_conditions(&col("x0", 0), &col("x1", 1));
    let mut right = EquivalenceGroup::empty();
    right.add_equal_conditions(&col("y0", 0), &col("y1", 1));

    let joined = left.join(&right, JoinType::LeftSemi, 3, &vec![]);
    let expected = left.into_inner();
    let actual = joined.into_inner();
    assert_eq!(actual.len(), expected.len());
    assert_eq!(actual[0], expected[0]);

    let joined = EquivalenceGroup::empty().join(&right, JoinType::RightSemi, 3, &vec![]);
    let expected = right.into_inner();
    let actual = joined.into_inner();
    assert_eq!(actual.len(), expected.len());
    assert_eq!(actual[0], expected[0]);
}

#[test]
fn test_group_extend() {
    let mut group = EquivalenceGroup::new(vec![EquivalenceClass::new(vec![lit(1), lit(2)])]);
    let other = EquivalenceGroup::new(vec![EquivalenceClass::new(vec![lit(2), lit(3)])]);
    group.extend(other);
    // The two classes share lit(2) and bridge into one.
    assert_eq!(group.len(), 1);
    let classes = group.into_inner();
    assert_eq!(classes[0], EquivalenceClass::new(vec![lit(1), lit(2), lit(3)]));
}

#[test]
fn test_project_expr_tiers() {
    let mut group = EquivalenceGroup::empty();
    group.add_equal_conditions(&col("a", 0), &col("b", 1));
    let mapping = ProjectionMapping {
        map: vec![(col("a", 0), col("a1", 0)), (col("c", 2), col("c1", 1))],
    };
    // Exact match.
    assert_eq!(group.project_expr(&mapping, &col("a", 0)), Some(col("a1", 0)));
    // Match through the equivalence class of a source.
    assert_eq!(group.project_expr(&mapping, &col("b", 1)), Some(col("a1", 0)));
    // A leaf outside the mapping is not representable.
    assert_eq!(group.project_expr(&mapping, &col("d", 3)), None);
    // A compound expression projects through its children.
    assert_eq!(
        group.project_expr(&mapping, &binary(col("b", 1), Operator::Plus, col("c", 2))),
        Some(binary(col("a1", 0), Operator::Plus, col("c1", 1)))
    );
}

#[test]
fn test_const_expr() {
    let c = ConstExpr::new(col("a", 0));
    assert_eq!(c.across_partitions(), AcrossPartitions::Heterogeneous);
    assert!(c.eq_expr(&col("a", 0)));
    assert!(!c.eq_expr(&col("b", 1)));

    let c = c.with_across_partitions(AcrossPartitions::Uniform(Some(ScalarVal::Int32(Some(5)))));
    assert_eq!(
        c.across_partitions(),
        AcrossPartitions::Uniform(Some(ScalarVal::Int32(Some(5))))
    );
    assert_eq!(c.expr(), &col("a", 0));
    assert_eq!(c.clone().owned_expr(), col("a", 0));

    let mapped = c.map(|e| Some(e.clone())).unwrap();
    assert!(mapped.eq_expr(&col("a", 0)));
    assert!(c.map(|_e| None).is_none());

    let consts = [ConstExpr::new(col("a", 0)), ConstExpr::new(col("b", 1))];
    assert!(const_exprs_contains(&consts, &col("b", 1)));
    assert!(!const_exprs_contains(&consts, &col("c", 2)));
}
