use equivalence::expr::Expr;
use equivalence::scalar::ScalarVal;
use equivalence::window_frame::{
    FrameBoundSpec, FrameSpec, IntervalSpec, IntervalValue, OffsetSpec, PlanError, Sort,
    WindowFrame, WindowFrameBound, WindowFrameUnits, parse_u64,
};

fn number(s: &str) -> Option<OffsetSpec> {
    Some(OffsetSpec::Number(s.to_string()))
}

fn interval_day(v: &str) -> Option<OffsetSpec> {
    Some(OffsetSpec::Interval(IntervalSpec {
        value: IntervalValue::Quoted(v.to_string()),
        leading_field: Some("DAY".to_string()),
        has_leading_precision: false,
        has_last_field: false,
        has_fractional_seconds_precision: false,
    }))
}

#[test]
fn test_window_frame_creation() {
    let window_frame = FrameSpec {
        units: WindowFrameUnits::Range,
        start_bound: FrameBoundSpec::Following(None),
        end_bound: None,
    };
    let err = WindowFrame::try_new(window_frame).unwrap_err();
    assert_eq!(
        err.message(),
        "Error during planning: Invalid window frame: start bound cannot be UNBOUNDED FOLLOWING"
            .to_owned()
    );

    let window_frame = FrameSpec {
        units: WindowFrameUnits::Range,
        start_bound: FrameBoundSpec::Preceding(None),
        end_bound: Some(FrameBoundSpec::Preceding(None)),
    };
    let err = WindowFrame::try_new(window_frame).unwrap_err();
    assert_eq!(
        err.message(),
        "Error during planning: Invalid window frame: end bound cannot be UNBOUNDED PRECEDING"
            .to_owned()
    );

    let window_frame = FrameSpec {
        units: WindowFrameUnits::Rows,
        start_bound: FrameBoundSpec::Preceding(number("2")),
        end_bound: Some(FrameBoundSpec::Preceding(number("1"))),
    };

    let window_frame = WindowFrame::try_new(window_frame).unwrap();
    assert_eq!(window_frame.units, WindowFrameUnits::Rows);
    assert_eq!(
        window_frame.start_bound,
        WindowFrameBound::Preceding(ScalarVal::UInt64(Some(2)))
    );
    assert_eq!(
        window_frame.end_bound,
        WindowFrameBound::Preceding(ScalarVal::UInt64(Some(1)))
    );
}

#[test]
fn test_window_frame_bound_creation() {
    //  Unbounded
    let preceding =
        WindowFrameBound::try_parse(FrameBoundSpec::Preceding(None), WindowFrameUnits::Rows)
            .unwrap();
    assert_eq!(preceding, WindowFrameBound::Preceding(ScalarVal::UInt64(None)));
    let following =
        WindowFrameBound::try_parse(FrameBoundSpec::Following(None), WindowFrameUnits::Rows)
            .unwrap();
    assert_eq!(following, WindowFrameBound::Following(ScalarVal::UInt64(None)));

    let preceding =
        WindowFrameBound::try_parse(FrameBoundSpec::Preceding(None), WindowFrameUnits::Groups)
            .unwrap();
    assert_eq!(preceding, WindowFrameBound::Preceding(ScalarVal::UInt64(None)));
    let following =
        WindowFrameBound::try_parse(FrameBoundSpec::Following(None), WindowFrameUnits::Groups)
            .unwrap();
    assert_eq!(following, WindowFrameBound::Following(ScalarVal::UInt64(None)));

    let preceding =
        WindowFrameBound::try_parse(FrameBoundSpec::Preceding(None), WindowFrameUnits::Range)
            .unwrap();
    assert_eq!(preceding, WindowFrameBound::Preceding(ScalarVal::UInt64(None)));
    let following =
        WindowFrameBound::try_parse(FrameBoundSpec::Following(None), WindowFrameUnits::Range)
            .unwrap();
    assert_eq!(following, WindowFrameBound::Following(ScalarVal::UInt64(None)));

    // Number
    let preceding = WindowFrameBound::try_parse(
        FrameBoundSpec::Preceding(number("42")),
        WindowFrameUnits::Rows,
    )
    .unwrap();
    assert_eq!(preceding, WindowFrameBound::Preceding(ScalarVal::UInt64(Some(42))));
    let following = WindowFrameBound::try_parse(
        FrameBoundSpec::Following(number("42")),
        WindowFrameUnits::Rows,
    )
    .unwrap();
    assert_eq!(following, WindowFrameBound::Following(ScalarVal::UInt64(Some(42))));

    let preceding = WindowFrameBound::try_parse(
        FrameBoundSpec::Preceding(number("42")),
        WindowFrameUnits::Groups,
    )
    .unwrap();
    assert_eq!(preceding, WindowFrameBound::Preceding(ScalarVal::UInt64(Some(42))));
    let following = WindowFrameBound::try_parse(
        FrameBoundSpec::Following(number("42")),
        WindowFrameUnits::Groups,
    )
    .unwrap();
    assert_eq!(following, WindowFrameBound::Following(ScalarVal::UInt64(Some(42))));

    let preceding = WindowFrameBound::try_parse(
        FrameBoundSpec::Preceding(number("42")),
        WindowFrameUnits::Range,
    )
    .unwrap();
    assert_eq!(
        preceding,
        WindowFrameBound::Preceding(ScalarVal::Utf8(Some("42".to_string())))
    );
    let following = WindowFrameBound::try_parse(
        FrameBoundSpec::Following(number("42")),
        WindowFrameUnits::Range,
    )
    .unwrap();
    assert_eq!(
        following,
        WindowFrameBound::Following(ScalarVal::Utf8(Some("42".to_string())))
    );

    // Interval
    let err = WindowFrameBound::try_parse(
        FrameBoundSpec::Preceding(interval_day("1")),
        WindowFrameUnits::Rows,
    )
    .unwrap_err();
    assert_eq!(err.message(), "Error during planning: Invalid window frame: frame offsets for ROWS / GROUPS must be non negative integers");
    let err = WindowFrameBound::try_parse(
        FrameBoundSpec::Following(interval_day("1")),
        WindowFrameUnits::Rows,
    )
    .unwrap_err();
    assert_eq!(err.message(), "Error during planning: Invalid window frame: frame offsets for ROWS / GROUPS must be non negative integers");

    let err = WindowFrameBound::try_parse(
        FrameBoundSpec::Preceding(interval_day("1")),
        WindowFrameUnits::Groups,
    )
    .unwrap_err();
    assert_eq!(err.message(), "Error during planning: Invalid window frame: frame offsets for ROWS / GROUPS must be non negative integers");
    let err = WindowFrameBound::try_parse(
        FrameBoundSpec::Following(interval_day("1")),
        WindowFrameUnits::Groups,
    )
    .unwrap_err();
    assert_eq!(err.message(), "Error during planning: Invalid window frame: frame offsets for ROWS / GROUPS must be non negative integers");

    let preceding = WindowFrameBound::try_parse(
        FrameBoundSpec::Preceding(interval_day("1")),
        WindowFrameUnits::Range,
    )
    .unwrap();
    assert_eq!(
        preceding,
        WindowFrameBound::Preceding(ScalarVal::Utf8(Some("1 DAY".to_string())))
    );
    let following = WindowFrameBound::try_parse(
        FrameBoundSpec::Following(interval_day("1")),
        WindowFrameUnits::Range,
    )
    .unwrap();
    assert_eq!(
        following,
        WindowFrameBound::Following(ScalarVal::Utf8(Some("1 DAY".to_string())))
    );
}

#[test]
fn test_parse_u64_values() {
    assert_eq!(parse_u64("42"), Some(42));
    assert_eq!(parse_u64("0"), Some(0));
    assert_eq!(parse_u64("18446744073709551615"), Some(u64::MAX));
    assert_eq!(parse_u64("18446744073709551616"), None);
    assert_eq!(parse_u64(""), None);
    assert_eq!(parse_u64("1a"), None);
    assert_eq!(parse_u64("-1"), None);
}

#[test]
fn test_offset_error_variants() {
    // A quoted bare interval parses for ROWS.
    let bare = Some(OffsetSpec::Interval(IntervalSpec {
        value: IntervalValue::Quoted("7".to_string()),
        leading_field: None,
        has_leading_precision: false,
        has_last_field: false,
        has_fractional_seconds_precision: false,
    }));
    let parsed =
        WindowFrameBound::try_parse(FrameBoundSpec::Preceding(bare), WindowFrameUnits::Rows)
            .unwrap();
    assert_eq!(parsed, WindowFrameBound::Preceding(ScalarVal::UInt64(Some(7))));

    // A non-string interval body is rejected with its rendering.
    let odd = Some(OffsetSpec::Interval(IntervalSpec {
        value: IntervalValue::Other("Identifier(x)".to_string()),
        leading_field: None,
        has_leading_precision: false,
        has_last_field: false,
        has_fractional_seconds_precision: false,
    }));
    let err = WindowFrameBound::try_parse(FrameBoundSpec::Preceding(odd), WindowFrameUnits::Rows)
        .unwrap_err();
    assert_eq!(err, PlanError::IntervalNotString("Identifier(x)".to_string()));
    assert_eq!(
        err.message(),
        "SQL error: ParserError(\"INTERVAL expression cannot be Identifier(x)\")"
    );

    // A non-numeric numeric literal is a cast failure.
    let err = WindowFrameBound::try_parse(
        FrameBoundSpec::Preceding(number("abc")),
        WindowFrameUnits::Rows,
    )
    .unwrap_err();
    assert_eq!(err, PlanError::OffsetNotParsable("abc".to_string()));
    assert_eq!(
        err.message(),
        "Arrow error: Cast error: Cannot cast string 'abc' to value of UInt64 type"
    );

    // Any other expression form is invalid for RANGE.
    let err = WindowFrameBound::try_parse(
        FrameBoundSpec::Preceding(Some(OffsetSpec::Other)),
        WindowFrameUnits::Range,
    )
    .unwrap_err();
    assert_eq!(err.message(), "Error during planning: Invalid window frame: frame offsets for RANGE must be either a numeric value, a string value or an interval");
}

#[test]
fn test_new_default_frames() {
    let strict = WindowFrame::new(Some(true));
    assert_eq!(strict.units, WindowFrameUnits::Rows);
    assert_eq!(strict.start_bound, WindowFrameBound::Preceding(ScalarVal::UInt64(None)));
    assert_eq!(strict.end_bound, WindowFrameBound::CurrentRow);
    assert!(strict.is_causal());

    let tied = WindowFrame::new(Some(false));
    assert_eq!(tied.units, WindowFrameUnits::Range);
    assert!(!tied.is_causal());

    let unordered = WindowFrame::new(None);
    assert_eq!(unordered.units, WindowFrameUnits::Rows);
    assert_eq!(unordered.end_bound, WindowFrameBound::Following(ScalarVal::UInt64(None)));
    assert!(!unordered.is_causal());
}

#[test]
fn test_new_bounds_causality() {
    // A ROWS frame ending at the current row is causal.
    let f = WindowFrame::new_bounds(
        WindowFrameUnits::Rows,
        WindowFrameBound::Preceding(ScalarVal::UInt64(None)),
        WindowFrameBound::CurrentRow,
    );
    assert!(f.is_causal());
    // A ROWS frame ending at a zero-offset following bound is causal.
    let f = WindowFrame::new_bounds(
        WindowFrameUnits::Rows,
        WindowFrameBound::Preceding(ScalarVal::UInt64(None)),
        WindowFrameBound::Following(ScalarVal::UInt64(Some(0))),
    );
    assert!(f.is_causal());
    // A ROWS frame ending at a positive following bound is not.
    let f = WindowFrame::new_bounds(
        WindowFrameUnits::Rows,
        WindowFrameBound::Preceding(ScalarVal::UInt64(None)),
        WindowFrameBound::Following(ScalarVal::UInt64(Some(1))),
    );
    assert!(!f.is_causal());
    // A RANGE frame ending at a positive preceding bound is causal.
    let f = WindowFrame::new_bounds(
        WindowFrameUnits::Range,
        WindowFrameBound::Preceding(ScalarVal::UInt64(None)),
        WindowFrameBound::Preceding(ScalarVal::UInt64(Some(2))),
    );
    assert!(f.is_causal());
    // A RANGE frame ending at the current row is not.
    let f = WindowFrame::new_bounds(
        WindowFrameUnits::Range,
        WindowFrameBound::Preceding(ScalarVal::UInt64(None)),
        WindowFrameBound::CurrentRow,
    );
    assert!(!f.is_causal());
}

#[test]
fn test_reverse_frame() {
    let f = WindowFrame::new_bounds(
        WindowFrameUnits::Rows,
        WindowFrameBound::Preceding(ScalarVal::UInt64(Some(3))),
        WindowFrameBound::Following(ScalarVal::UInt64(Some(2))),
    );
    let r = f.reverse();
    assert_eq!(r.units, WindowFrameUnits::Rows);
    assert_eq!(r.start_bound, WindowFrameBound::Preceding(ScalarVal::UInt64(Some(2))));
    assert_eq!(r.end_bound, WindowFrameBound::Following(ScalarVal::UInt64(Some(3))));
}

#[test]
fn test_multi_orderby_and_expansion() {
    let free = WindowFrame::new_bounds(
        WindowFrameUnits::Range,
        WindowFrameBound::Preceding(ScalarVal::UInt64(None)),
        WindowFrameBound::CurrentRow,
    );
    assert!(free.can_accept_multi_orderby());
    assert!(free.is_ever_expanding());

    let bounded = WindowFrame::new_bounds(
        WindowFrameUnits::Range,
        WindowFrameBound::Preceding(ScalarVal::Utf8(Some("1".to_string()))),
        WindowFrameBound::CurrentRow,
    );
    assert!(!bounded.can_accept_multi_orderby());
    assert!(!bounded.is_ever_expanding());

    let rows = WindowFrame::new_bounds(
        WindowFrameUnits::Rows,
        WindowFrameBound::Preceding(ScalarVal::UInt64(Some(1))),
        WindowFrameBound::CurrentRow,
    );
    assert!(rows.can_accept_multi_orderby());
}

fn sort_key(name: &str, index: usize) -> Sort {
    Sort {
        expr: Expr::Column { name: name.to_string(), index },
        asc: true,
        nulls_first: true,
    }
}

#[test]
fn test_regularize_order_bys() {
    // A free-range RANGE frame without sort keys gains a constant key.
    let free = WindowFrame::new_bounds(
        WindowFrameUnits::Range,
        WindowFrameBound::Preceding(ScalarVal::UInt64(None)),
        WindowFrameBound::CurrentRow,
    );
    let mut order_by: Vec<Sort> = vec![];
    free.regularize_order_bys(&mut order_by).unwrap();
    assert_eq!(order_by.len(), 1);
    assert_eq!(
        order_by[0],
        Sort {
            expr: Expr::Literal { value: ScalarVal::UInt64(Some(1)) },
            asc: true,
            nulls_first: false,
        }
    );

    // With keys present it stays unchanged.
    let mut order_by = vec![sort_key("a", 0), sort_key("b", 1)];
    free.regularize_order_bys(&mut order_by).unwrap();
    assert_eq!(order_by.len(), 2);

    // A bounded RANGE frame requires exactly one key.
    let bounded = WindowFrame::new_bounds(
        WindowFrameUnits::Range,
        WindowFrameBound::Preceding(ScalarVal::Utf8(Some("1".to_string()))),
        WindowFrameBound::CurrentRow,
    );
    let mut order_by = vec![sort_key("a", 0), sort_key("b", 1)];
    let err = bounded.regularize_order_bys(&mut order_by).unwrap_err();
    assert_eq!(err.message(), "Error during planning: RANGE requires exactly one ORDER BY column");
    let mut order_by = vec![sort_key("a", 0)];
    bounded.regularize_order_bys(&mut order_by).unwrap();

    // A GROUPS frame requires at least one key.
    let groups = WindowFrame::new_bounds(
        WindowFrameUnits::Groups,
        WindowFrameBound::Preceding(ScalarVal::UInt64(None)),
        WindowFrameBound::CurrentRow,
    );
    let mut order_by: Vec<Sort> = vec![];
    let err = groups.regularize_order_bys(&mut order_by).unwrap_err();
    assert_eq!(err.message(), "Error during planning: GROUPS requires an ORDER BY clause");
    let mut order_by = vec![sort_key("a", 0)];
    groups.regularize_order_bys(&mut order_by).unwrap();
}
