//! Window frame bounds and their validation.
//!
//! The frame specification determines which rows an aggregate window
//! function reads for each output row.  A frame has a unit kind (`ROWS`,
//! `RANGE` or `GROUPS`), a starting and an ending boundary, and a causality
//! flag: a frame is causal exactly when the result for a row never depends
//! on rows after it.  Construction from a textual frame specification
//! validates the boundaries and offsets.

use vstd::prelude::*;
use crate::display::spec_scalar_str;
use crate::expr::{Expr, SpecExpr};
use crate::scalar::{ScalarVal, SpecScalar};

verus! {

/// The three frame unit kinds.
#[derive(Debug, Clone, Copy, PartialEq, Eq, Hash, Structural)]
pub enum WindowFrameUnits {
    /// Boundaries count individual rows relative to the current row.
    Rows,
    /// Boundaries frame rows whose single ORDER BY key lies within a value
    /// range of the current row's key.
    Range,
    /// Boundaries count peer groups (rows tying on every ORDER BY key)
    /// relative to the current group.
    Groups,
}

/// Mathematical model of a frame boundary.
pub enum SpecFrameBound {
    Preceding(SpecScalar),
    CurrentRow,
    Following(SpecScalar),
}

/// A starting or ending frame boundary.  A null offset scalar encodes the
/// unbounded form of its direction.
#[derive(Debug, PartialEq, Eq, Hash)]
pub enum WindowFrameBound {
    /// `UNBOUNDED PRECEDING` (null offset) or `<offset> PRECEDING`.
    Preceding(ScalarVal),
    /// The current row.
    CurrentRow,
    /// `<offset> FOLLOWING` or `UNBOUNDED FOLLOWING` (null offset).
    Following(ScalarVal),
}

impl View for WindowFrameBound {
    type V = SpecFrameBound;

    open spec fn view(&self) -> SpecFrameBound {
        match self {
            WindowFrameBound::Preceding(v) => SpecFrameBound::Preceding(v@),
            WindowFrameBound::CurrentRow => SpecFrameBound::CurrentRow,
            WindowFrameBound::Following(v) => SpecFrameBound::Following(v@),
        }
    }
}

impl Clone for WindowFrameBound {
    /// Deep copy with the same mathematical value.
    fn clone(&self) -> (r: Self)
        ensures
            r@ == self@,
    {
        match self {
            WindowFrameBound::Preceding(v) => WindowFrameBound::Preceding(v.clone()),
            WindowFrameBound::CurrentRow => WindowFrameBound::CurrentRow,
            WindowFrameBound::Following(v) => WindowFrameBound::Following(v.clone()),
        }
    }
}

impl SpecFrameBound {
    /// The boundary is the unbounded form of its direction.
    pub open spec fn is_unbounded(&self) -> bool {
        match self {
            SpecFrameBound::Preceding(v) => v.is_null(),
            SpecFrameBound::CurrentRow => false,
            SpecFrameBound::Following(v) => v.is_null(),
        }
    }
}

impl WindowFrameBound {
    /// Returns true for `UNBOUNDED PRECEDING` and `UNBOUNDED FOLLOWING`.
    pub fn is_unbounded(&self) -> (r: bool)
        ensures
            r == self@.is_unbounded(),
    {
        match self {
            WindowFrameBound::Preceding(elem) => elem.is_null(),
            WindowFrameBound::CurrentRow => false,
            WindowFrameBound::Following(elem) => elem.is_null(),
        }
    }
}

/// Whether a frame with this unit kind and ending boundary is causal: for
/// row-counted frames the end must be the current row, a preceding bound or
/// a zero-offset following bound; for range and group frames the end must
/// be an unbounded or positive-offset preceding bound.
pub open spec fn spec_causal_of(units: WindowFrameUnits, end: SpecFrameBound) -> bool {
    match units {
        WindowFrameUnits::Rows => match end {
            SpecFrameBound::Following(v) => if v.is_null() {
                false
            } else {
                v.is_zero()
            },
            _ => true,
        },
        WindowFrameUnits::Range | WindowFrameUnits::Groups => match end {
            SpecFrameBound::Preceding(v) => if v.is_null() {
                true
            } else {
                v.is_positive()
            },
            _ => false,
        },
    }
}

/// Both boundaries are unbounded or the current row.
pub open spec fn spec_free_range(start: SpecFrameBound, end: SpecFrameBound) -> bool {
    (start.is_unbounded() || start == SpecFrameBound::CurrentRow) && (end.is_unbounded() || end
        == SpecFrameBound::CurrentRow)
}

/// Mathematical model of a window frame.
pub struct SpecWindowFrame {
    pub units: WindowFrameUnits,
    pub start_bound: SpecFrameBound,
    pub end_bound: SpecFrameBound,
    pub causal: bool,
}

/// The frame specification of one window function.
#[derive(Debug, PartialEq, Eq, Hash)]
pub struct WindowFrame {
    /// Frame type: `ROWS`, `RANGE` or `GROUPS`.
    pub units: WindowFrameUnits,
    /// Starting frame boundary.
    pub start_bound: WindowFrameBound,
    /// Ending frame boundary.
    pub end_bound: WindowFrameBound,
    /// Whether computing the result for the current row never depends on
    /// any subsequent rows.
    causal: bool,
}

impl View for WindowFrame {
    type V = SpecWindowFrame;

    closed spec fn view(&self) -> SpecWindowFrame {
        SpecWindowFrame {
            units: self.units,
            start_bound: self.start_bound@,
            end_bound: self.end_bound@,
            causal: self.causal,
        }
    }
}

impl Clone for WindowFrame {
    /// Deep copy with the same mathematical value.
    fn clone(&self) -> (r: Self)
        ensures
            r@ == self@,
    {
        WindowFrame {
            units: self.units,
            start_bound: self.start_bound.clone(),
            end_bound: self.end_bound.clone(),
            causal: self.causal,
        }
    }
}

impl WindowFrame {
    /// Creates a new, default window frame; the meaning of default depends
    /// on whether the window has an ORDER BY clause and whether that
    /// ordering is strict (free of ties).
    pub fn new(order_by: Option<bool>) -> (r: Self)
        ensures
            match order_by {
                Some(strict) => {
                    &&& r@.units == (if strict {
                        WindowFrameUnits::Rows
                    } else {
                        WindowFrameUnits::Range
                    })
                    &&& r@.start_bound == SpecFrameBound::Preceding(SpecScalar::UInt64(None))
                    &&& r@.end_bound == SpecFrameBound::CurrentRow
                    &&& r@.causal == strict
                },
                None => {
                    &&& r@.units == WindowFrameUnits::Rows
                    &&& r@.start_bound == SpecFrameBound::Preceding(SpecScalar::UInt64(None))
                    &&& r@.end_bound == SpecFrameBound::Following(SpecScalar::UInt64(None))
                    &&& !r@.causal
                },
            },
    {
        match order_by {
            Some(strict) => {
                // The frame covers the table (or partition) from its start
                // to the current row and its rank peers: used when the
                // window has an ORDER BY clause but no explicit frame.
                WindowFrame {
                    units: if strict {
                        WindowFrameUnits::Rows
                    } else {
                        WindowFrameUnits::Range
                    },
                    start_bound: WindowFrameBound::Preceding(ScalarVal::UInt64(None)),
                    end_bound: WindowFrameBound::CurrentRow,
                    causal: strict,
                }
            },
            None => {
                // The frame covers the whole table (or partition): used
                // when the window has neither an ORDER BY clause nor a
                // frame.
                WindowFrame {
                    units: WindowFrameUnits::Rows,
                    start_bound: WindowFrameBound::Preceding(ScalarVal::UInt64(None)),
                    end_bound: WindowFrameBound::Following(ScalarVal::UInt64(None)),
                    causal: false,
                }
            },
        }
    }

    /// Initializes a window frame from its unit kind and two boundaries,
    /// computing the causality flag.
    pub fn new_bounds(
        units: WindowFrameUnits,
        start_bound: WindowFrameBound,
        end_bound: WindowFrameBound,
    ) -> (r: Self)
        ensures
            r@.units == units,
            r@.start_bound == start_bound@,
            r@.end_bound == end_bound@,
            r@.causal == spec_causal_of(units, end_bound@),
    {
        let causal = match units {
            WindowFrameUnits::Rows => match &end_bound {
                WindowFrameBound::Following(value) => if value.is_null() {
                    // Unbounded following.
                    false
                } else {
                    value.is_zero()
                },
                _ => true,
            },
            WindowFrameUnits::Range | WindowFrameUnits::Groups => match &end_bound {
                WindowFrameBound::Preceding(value) => if value.is_null() {
                    // Unbounded preceding.
                    true
                } else {
                    value.is_positive()
                },
                _ => false,
            },
        };
        WindowFrame { units, start_bound, end_bound, causal }
    }

    /// The reversed window frame: the two boundaries swap and each flips
    /// its direction, for example `3 PRECEDING AND 2 FOLLOWING` becomes
    /// `2 PRECEDING AND 3 FOLLOWING`.
    pub fn reverse(&self) -> (r: Self)
        ensures
            r@.units == self@.units,
            r@.start_bound == spec_flip_bound(self@.end_bound),
            r@.end_bound == spec_flip_bound(self@.start_bound),
            r@.causal == spec_causal_of(self@.units, spec_flip_bound(self@.start_bound)),
    {
        let start_bound = match &self.end_bound {
            WindowFrameBound::Preceding(value) => WindowFrameBound::Following(value.clone()),
            WindowFrameBound::Following(value) => WindowFrameBound::Preceding(value.clone()),
            WindowFrameBound::CurrentRow => WindowFrameBound::CurrentRow,
        };
        let end_bound = match &self.start_bound {
            WindowFrameBound::Preceding(value) => WindowFrameBound::Following(value.clone()),
            WindowFrameBound::Following(value) => WindowFrameBound::Preceding(value.clone()),
            WindowFrameBound::CurrentRow => WindowFrameBound::CurrentRow,
        };
        Self::new_bounds(self.units, start_bound, end_bound)
    }

    /// Whether the window frame is causal.
    pub fn is_causal(&self) -> (r: bool)
        ensures
            r == self@.causal,
    {
        self.causal
    }

    /// Whether both boundaries are unbounded or the current row.
    fn free_range(&self) -> (r: bool)
        ensures
            r == spec_free_range(self@.start_bound, self@.end_bound),
    {
        (self.start_bound.is_unbounded() || matches!(self.start_bound, WindowFrameBound::CurrentRow))
            && (self.end_bound.is_unbounded() || matches!(
            self.end_bound,
            WindowFrameBound::CurrentRow,
        ))
    }

    /// Whether the window frame can accept multiple ORDER BY expressions:
    /// range frames require exactly one unless their bounds are free-range.
    pub fn can_accept_multi_orderby(&self) -> (r: bool)
        ensures
            r == match self@.units {
                WindowFrameUnits::Rows => true,
                WindowFrameUnits::Range => spec_free_range(self@.start_bound, self@.end_bound),
                WindowFrameUnits::Groups => true,
            },
    {
        match self.units {
            WindowFrameUnits::Rows => true,
            WindowFrameUnits::Range => self.free_range(),
            WindowFrameUnits::Groups => true,
        }
    }

    /// Whether the frame always grows in the superset sense: true exactly
    /// when the starting boundary is unbounded.
    pub fn is_ever_expanding(&self) -> (r: bool)
        ensures
            r == self@.start_bound.is_unbounded(),
    {
        self.start_bound.is_unbounded()
    }
}

/// The boundary with its direction flipped; the current row stays put.
pub open spec fn spec_flip_bound(b: SpecFrameBound) -> SpecFrameBound {
    match b {
        SpecFrameBound::Preceding(v) => SpecFrameBound::Following(v),
        SpecFrameBound::CurrentRow => SpecFrameBound::CurrentRow,
        SpecFrameBound::Following(v) => SpecFrameBound::Preceding(v),
    }
}

/// A planning-time validation failure: a user-facing description of the
/// specific SQL construct rejected.
#[derive(Debug, PartialEq, Eq)]
pub enum PlanError {
    /// The frame's start bound is `UNBOUNDED FOLLOWING`.
    StartBoundUnboundedFollowing,
    /// The frame's end bound is `UNBOUNDED PRECEDING`.
    EndBoundUnboundedPreceding,
    /// A `ROWS` or `GROUPS` offset is not a non-negative integer literal.
    RowsOffsetNotNonNegativeInteger,
    /// A `RANGE` offset is neither numeric, a string, nor an interval.
    RangeOffsetInvalid,
    /// An interval offset's inner expression is not a quoted string; the
    /// payload renders the offending expression.
    IntervalNotString(String),
    /// A numeric offset string did not parse as an unsigned integer; the
    /// payload is the offending string.
    OffsetNotParsable(String),
    /// A non-free-range `RANGE` frame with other than one ORDER BY column.
    RangeRequiresOneOrderBy,
    /// A `GROUPS` frame without an ORDER BY clause.
    GroupsRequiresOrderBy,
}

/// Mathematical model of a [`PlanError`].
pub enum SpecPlanError {
    StartBoundUnboundedFollowing,
    EndBoundUnboundedPreceding,
    RowsOffsetNotNonNegativeInteger,
    RangeOffsetInvalid,
    IntervalNotString(Seq<char>),
    OffsetNotParsable(Seq<char>),
    RangeRequiresOneOrderBy,
    GroupsRequiresOrderBy,
}

impl View for PlanError {
    type V = SpecPlanError;

    open spec fn view(&self) -> SpecPlanError {
        match self {
            PlanError::StartBoundUnboundedFollowing => SpecPlanError::StartBoundUnboundedFollowing,
            PlanError::EndBoundUnboundedPreceding => SpecPlanError::EndBoundUnboundedPreceding,
            PlanError::RowsOffsetNotNonNegativeInteger => SpecPlanError::RowsOffsetNotNonNegativeInteger,
            PlanError::RangeOffsetInvalid => SpecPlanError::RangeOffsetInvalid,
            PlanError::IntervalNotString(s) => SpecPlanError::IntervalNotString(s@),
            PlanError::OffsetNotParsable(s) => SpecPlanError::OffsetNotParsable(s@),
            PlanError::RangeRequiresOneOrderBy => SpecPlanError::RangeRequiresOneOrderBy,
            PlanError::GroupsRequiresOrderBy => SpecPlanError::GroupsRequiresOrderBy,
        }
    }
}

impl Clone for PlanError {
    /// Deep copy with the same mathematical value.
    fn clone(&self) -> (r: Self)
        ensures
            r@ == self@,
    {
        match self {
            PlanError::StartBoundUnboundedFollowing => PlanError::StartBoundUnboundedFollowing,
            PlanError::EndBoundUnboundedPreceding => PlanError::EndBoundUnboundedPreceding,
            PlanError::RowsOffsetNotNonNegativeInteger => PlanError::RowsOffsetNotNonNegativeInteger,
            PlanError::RangeOffsetInvalid => PlanError::RangeOffsetInvalid,
            PlanError::IntervalNotString(s) => PlanError::IntervalNotString(s.clone()),
            PlanError::OffsetNotParsable(s) => PlanError::OffsetNotParsable(s.clone()),
            PlanError::RangeRequiresOneOrderBy => PlanError::RangeRequiresOneOrderBy,
            PlanError::GroupsRequiresOrderBy => PlanError::GroupsRequiresOrderBy,
        }
    }
}

/// The user-facing message of a planning error.
pub open spec fn spec_plan_error_message(e: SpecPlanError) -> Seq<char> {
    match e {
        SpecPlanError::StartBoundUnboundedFollowing => "Error during planning: Invalid window frame: start bound cannot be UNBOUNDED FOLLOWING"@,
        SpecPlanError::EndBoundUnboundedPreceding => "Error during planning: Invalid window frame: end bound cannot be UNBOUNDED PRECEDING"@,
        SpecPlanError::RowsOffsetNotNonNegativeInteger => "Error during planning: Invalid window frame: frame offsets for ROWS / GROUPS must be non negative integers"@,
        SpecPlanError::RangeOffsetInvalid => "Error during planning: Invalid window frame: frame offsets for RANGE must be either a numeric value, a string value or an interval"@,
        SpecPlanError::IntervalNotString(s) => "SQL error: ParserError(\"INTERVAL expression cannot be "@ + s + "\")"@,
        SpecPlanError::OffsetNotParsable(s) => "Arrow error: Cast error: Cannot cast string '"@ + s + "' to value of UInt64 type"@,
        SpecPlanError::RangeRequiresOneOrderBy => "Error during planning: RANGE requires exactly one ORDER BY column"@,
        SpecPlanError::GroupsRequiresOrderBy => "Error during planning: GROUPS requires an ORDER BY clause"@,
    }
}

impl PlanError {
    /// The user-facing message describing the rejected construct.
    pub fn message(&self) -> (r: String)
        ensures
            r@ == spec_plan_error_message(self@),
    {
        match self {
            PlanError::StartBoundUnboundedFollowing => String::from_str(
                "Error during planning: Invalid window frame: start bound cannot be UNBOUNDED FOLLOWING",
            ),
            PlanError::EndBoundUnboundedPreceding => String::from_str(
                "Error during planning: Invalid window frame: end bound cannot be UNBOUNDED PRECEDING",
            ),
            PlanError::RowsOffsetNotNonNegativeInteger => String::from_str(
                "Error during planning: Invalid window frame: frame offsets for ROWS / GROUPS must be non negative integers",
            ),
            PlanError::RangeOffsetInvalid => String::from_str(
                "Error during planning: Invalid window frame: frame offsets for RANGE must be either a numeric value, a string value or an interval",
            ),
            PlanError::IntervalNotString(s) => {
                let mut m = String::from_str("SQL error: ParserError(\"INTERVAL expression cannot be ");
                m.append(s.as_str());
                m.append("\")");
                m
            },
            PlanError::OffsetNotParsable(s) => {
                let mut m = String::from_str("Arrow error: Cast error: Cannot cast string '");
                m.append(s.as_str());
                m.append("' to value of UInt64 type");
                m
            },
            PlanError::RangeRequiresOneOrderBy => String::from_str(
                "Error during planning: RANGE requires exactly one ORDER BY column",
            ),
            PlanError::GroupsRequiresOrderBy => String::from_str(
                "Error during planning: GROUPS requires an ORDER BY clause",
            ),
        }
    }
}

/// The inner expression of an interval offset: a single-quoted string, or
/// some other expression carried as its rendering (for the error message).
#[derive(Debug, PartialEq, Eq)]
pub enum IntervalValue {
    Quoted(String),
    Other(String),
}

/// Mathematical model of an [`IntervalValue`].
pub enum SpecIntervalValue {
    Quoted(Seq<char>),
    Other(Seq<char>),
}

impl View for IntervalValue {
    type V = SpecIntervalValue;

    open spec fn view(&self) -> SpecIntervalValue {
        match self {
            IntervalValue::Quoted(s) => SpecIntervalValue::Quoted(s@),
            IntervalValue::Other(s) => SpecIntervalValue::Other(s@),
        }
    }
}

/// An interval literal as it appears in a frame offset: its inner value and
/// which of the optional qualifier fields are present.
#[derive(Debug, PartialEq, Eq)]
pub struct IntervalSpec {
    pub value: IntervalValue,
    /// The leading unit keyword, such as `DAY`, if present.
    pub leading_field: Option<String>,
    pub has_leading_precision: bool,
    pub has_last_field: bool,
    pub has_fractional_seconds_precision: bool,
}

/// Mathematical model of an [`IntervalSpec`].
pub struct SpecIntervalSpec {
    pub value: SpecIntervalValue,
    pub leading_field: Option<Seq<char>>,
    pub has_leading_precision: bool,
    pub has_last_field: bool,
    pub has_fractional_seconds_precision: bool,
}

impl View for IntervalSpec {
    type V = SpecIntervalSpec;

    open spec fn view(&self) -> SpecIntervalSpec {
        SpecIntervalSpec {
            value: self.value@,
            leading_field: self.leading_field.deep_view(),
            has_leading_precision: self.has_leading_precision,
            has_last_field: self.has_last_field,
            has_fractional_seconds_precision: self.has_fractional_seconds_precision,
        }
    }
}

/// The offset expression of a textual frame boundary, reduced to the forms
/// the validation distinguishes.
#[derive(Debug, PartialEq, Eq)]
pub enum OffsetSpec {
    /// A plain (unsuffixed) numeric literal, as written.
    Number(String),
    /// An interval literal.
    Interval(IntervalSpec),
    /// Any other expression.
    Other,
}

/// Mathematical model of an [`OffsetSpec`].
pub enum SpecOffsetSpec {
    Number(Seq<char>),
    Interval(SpecIntervalSpec),
    Other,
}

impl View for OffsetSpec {
    type V = SpecOffsetSpec;

    open spec fn view(&self) -> SpecOffsetSpec {
        match self {
            OffsetSpec::Number(s) => SpecOffsetSpec::Number(s@),
            OffsetSpec::Interval(iv) => SpecOffsetSpec::Interval(iv@),
            OffsetSpec::Other => SpecOffsetSpec::Other,
        }
    }
}

/// A textual frame boundary: the five SQL forms, with `UNBOUNDED` encoded
/// as an absent offset.
#[derive(Debug, PartialEq, Eq)]
pub enum FrameBoundSpec {
    Preceding(Option<OffsetSpec>),
    CurrentRow,
    Following(Option<OffsetSpec>),
}

/// Mathematical model of a [`FrameBoundSpec`].
pub enum SpecFrameBoundSpec {
    Preceding(Option<SpecOffsetSpec>),
    CurrentRow,
    Following(Option<SpecOffsetSpec>),
}

impl View for FrameBoundSpec {
    type V = SpecFrameBoundSpec;

    open spec fn view(&self) -> SpecFrameBoundSpec {
        match self {
            FrameBoundSpec::Preceding(v) => SpecFrameBoundSpec::Preceding(
                match v {
                    Some(o) => Some(o@),
                    None => None,
                },
            ),
            FrameBoundSpec::CurrentRow => SpecFrameBoundSpec::CurrentRow,
            FrameBoundSpec::Following(v) => SpecFrameBoundSpec::Following(
                match v {
                    Some(o) => Some(o@),
                    None => None,
                },
            ),
        }
    }
}

/// A textual window frame specification: the unit keyword and the two
/// boundary clauses, the ending one optional (it defaults to the current
/// row).
#[derive(Debug, PartialEq, Eq)]
pub struct FrameSpec {
    pub units: WindowFrameUnits,
    pub start_bound: FrameBoundSpec,
    pub end_bound: Option<FrameBoundSpec>,
}

/// Mathematical model of a [`FrameSpec`].
pub struct SpecFrameSpec {
    pub units: WindowFrameUnits,
    pub start_bound: SpecFrameBoundSpec,
    pub end_bound: Option<SpecFrameBoundSpec>,
}

impl View for FrameSpec {
    type V = SpecFrameSpec;

    open spec fn view(&self) -> SpecFrameSpec {
        SpecFrameSpec {
            units: self.units,
            start_bound: self.start_bound@,
            end_bound: match &self.end_bound {
                Some(b) => Some(b@),
                None => None,
            },
        }
    }
}

/// A decimal digit.
pub open spec fn spec_is_digit(c: char) -> bool {
    48 <= c as u32 <= 57
}

/// The string consists of one or more decimal digits.
pub open spec fn spec_all_digits(s: Seq<char>) -> bool {
    s.len() > 0 && forall|i: int| 0 <= i < s.len() ==> spec_is_digit(#[trigger] s[i])
}

/// The value of a decimal digit string, most significant first.
pub open spec fn spec_dec_value(s: Seq<char>) -> int
    decreases s.len(),
{
    if s.len() == 0 {
        0
    } else {
        spec_dec_value(s.drop_last()) * 10 + (s.last() as u32 - 48)
    }
}

/// The unsigned integer a digit string denotes, when it is one and fits.
pub open spec fn spec_parse_u64(s: Seq<char>) -> Option<u64> {
    if spec_all_digits(s) && spec_dec_value(s) <= u64::MAX {
        Some(spec_dec_value(s) as u64)
    } else {
        None
    }
}

/// A digit string's value is non-negative and only grows as the string
/// extends to the right.
proof fn lemma_dec_value_grows(s: Seq<char>, k: int)
    requires
        0 <= k <= s.len(),
        forall|i: int| 0 <= i < s.len() ==> spec_is_digit(#[trigger] s[i]),
    ensures
        0 <= spec_dec_value(s.subrange(0, k)),
        spec_dec_value(s.subrange(0, k)) <= spec_dec_value(s),
    decreases s.len() - k,
{
    if k == s.len() {
        assert(s.subrange(0, k) =~= s);
        lemma_dec_value_nonneg(s);
    } else {
        lemma_dec_value_grows(s, k + 1);
        let p1 = s.subrange(0, k + 1);
        let p0 = s.subrange(0, k);
        assert(p1.drop_last() =~= p0);
        assert(p1.last() == s[k]);
        assert(spec_is_digit(s[k]));
        lemma_dec_value_nonneg(p0);
    }
}

proof fn lemma_dec_value_nonneg(s: Seq<char>)
    requires
        forall|i: int| 0 <= i < s.len() ==> spec_is_digit(#[trigger] s[i]),
    ensures
        0 <= spec_dec_value(s),
    decreases s.len(),
{
    if s.len() > 0 {
        assert(forall|i: int|
            0 <= i < s.drop_last().len() ==> spec_is_digit(#[trigger] s.drop_last()[i]));
        lemma_dec_value_nonneg(s.drop_last());
        assert(spec_is_digit(s.last()));
    }
}

/// Parses a string of decimal digits into an unsigned integer; fails on an
/// empty string, a non-digit character, or overflow.
pub fn parse_u64(s: &str) -> (r: Option<u64>)
    ensures
        r == spec_parse_u64(s@),
{
    let len = s.unicode_len();
    if len == 0 {
        return None;
    }
    let mut val: u64 = 0;
    for i in 0..len
        invariant
            len == s@.len(),
            0 < len,
            forall|j: int| 0 <= j < i ==> spec_is_digit(#[trigger] s@[j]),
            val == spec_dec_value(s@.subrange(0, i as int)),
    {
        let c = s.get_char(i);
        let d = c as u32;
        if d < 48 || d > 57 {
            proof {
                assert(!spec_is_digit(s@[i as int]));
            }
            return None;
        }
        let dv = (d - 48) as u64;
        if val > (u64::MAX - dv) / 10 {
            proof {
                let p1 = s@.subrange(0, i + 1);
                assert(p1.drop_last() =~= s@.subrange(0, i as int));
                assert(p1.last() == s@[i as int]);
                assert(spec_dec_value(p1) == val * 10 + dv);
                assert(val * 10 + dv > u64::MAX) by {
                    let q = ((u64::MAX - dv) / 10) as int;
                    assert(10 * q + ((u64::MAX - dv) as int % 10) == u64::MAX - dv) by {
                        vstd::arithmetic::div_mod::lemma_fundamental_div_mod(
                            (u64::MAX - dv) as int,
                            10,
                        );
                    }
                    assert(0 <= (u64::MAX - dv) as int % 10 < 10) by {
                        vstd::arithmetic::div_mod::lemma_mod_bound((u64::MAX - dv) as int, 10);
                    }
                    assert(val >= q + 1);
                    assert(val * 10 >= (q + 1) * 10) by (nonlinear_arith)
                        requires
                            val >= q + 1,
                    ;
                }
                if spec_all_digits(s@) {
                    lemma_dec_value_grows(s@, i + 1);
                    assert(spec_dec_value(s@) > u64::MAX);
                }
            }
            return None;
        }
        proof {
            let q = ((u64::MAX - dv) / 10) as int;
            assert(10 * q + ((u64::MAX - dv) as int % 10) == u64::MAX - dv) by {
                vstd::arithmetic::div_mod::lemma_fundamental_div_mod((u64::MAX - dv) as int, 10);
            }
            assert(0 <= (u64::MAX - dv) as int % 10 < 10) by {
                vstd::arithmetic::div_mod::lemma_mod_bound((u64::MAX - dv) as int, 10);
            }
            assert(val <= q);
            assert(val * 10 <= q * 10) by (nonlinear_arith)
                requires
                    val <= q,
            ;
            assert(val * 10 + dv <= u64::MAX);
        }
        val = val * 10 + dv;
        proof {
            let p1 = s@.subrange(0, i + 1);
            assert(p1.drop_last() =~= s@.subrange(0, i as int));
            assert(p1.last() == s@[i as int]);
            assert(val == spec_dec_value(p1));
        }
    }
    proof {
        assert(s@.subrange(0, len as int) =~= s@);
        assert(spec_all_digits(s@));
    }
    Some(val)
}

/// The scalar a textual frame offset converts to under the given unit
/// kind.  `ROWS` and `GROUPS` offsets must be non-negative integers, given
/// as a plain numeric literal or a bare quoted interval; `RANGE` offsets
/// stay textual (their meaning depends on the ORDER BY key type), with an
/// interval's leading unit keyword appended after a space.
pub open spec fn spec_convert_offset(units: WindowFrameUnits, v: SpecOffsetSpec) -> Result<
    SpecScalar,
    SpecPlanError,
> {
    match units {
        WindowFrameUnits::Rows | WindowFrameUnits::Groups => match v {
            SpecOffsetSpec::Number(s) => match spec_parse_u64(s) {
                Some(n) => Ok(SpecScalar::UInt64(Some(n))),
                None => Err(SpecPlanError::OffsetNotParsable(s)),
            },
            SpecOffsetSpec::Interval(iv) => if iv.leading_field is None
                && !iv.has_leading_precision && !iv.has_last_field
                && !iv.has_fractional_seconds_precision {
                match iv.value {
                    SpecIntervalValue::Quoted(item) => match spec_parse_u64(item) {
                        Some(n) => Ok(SpecScalar::UInt64(Some(n))),
                        None => Err(SpecPlanError::OffsetNotParsable(item)),
                    },
                    SpecIntervalValue::Other(d) => Err(SpecPlanError::IntervalNotString(d)),
                }
            } else {
                Err(SpecPlanError::RowsOffsetNotNonNegativeInteger)
            },
            SpecOffsetSpec::Other => Err(SpecPlanError::RowsOffsetNotNonNegativeInteger),
        },
        WindowFrameUnits::Range => match v {
            SpecOffsetSpec::Number(s) => Ok(SpecScalar::Utf8(Some(s))),
            SpecOffsetSpec::Interval(iv) => match iv.value {
                SpecIntervalValue::Quoted(item) => Ok(
                    SpecScalar::Utf8(
                        Some(
                            match iv.leading_field {
                                Some(f) => item + seq![' '] + f,
                                None => item,
                            },
                        ),
                    ),
                ),
                SpecIntervalValue::Other(d) => Err(SpecPlanError::IntervalNotString(d)),
            },
            SpecOffsetSpec::Other => Err(SpecPlanError::RangeOffsetInvalid),
        },
    }
}

/// Converts a textual frame offset to a scalar under the given unit kind.
pub fn convert_frame_bound_to_scalar_value(v: OffsetSpec, units: WindowFrameUnits) -> (r: Result<
    ScalarVal,
    PlanError,
>)
    ensures
        match spec_convert_offset(units, v@) {
            Ok(s) => r is Ok && r.unwrap()@ == s,
            Err(e) => r is Err && r.unwrap_err()@ == e,
        },
{
    match units {
        // For ROWS and GROUPS the scalar must be a non-negative integer.
        WindowFrameUnits::Rows | WindowFrameUnits::Groups => match v {
            OffsetSpec::Number(value) => match parse_u64(value.as_str()) {
                Some(n) => Ok(ScalarVal::UInt64(Some(n))),
                None => Err(PlanError::OffsetNotParsable(value)),
            },
            OffsetSpec::Interval(iv) => {
                if iv.leading_field.is_none() && !iv.has_leading_precision && !iv.has_last_field
                    && !iv.has_fractional_seconds_precision {
                    match iv.value {
                        IntervalValue::Quoted(item) => match parse_u64(item.as_str()) {
                            Some(n) => Ok(ScalarVal::UInt64(Some(n))),
                            None => Err(PlanError::OffsetNotParsable(item)),
                        },
                        IntervalValue::Other(d) => Err(PlanError::IntervalNotString(d)),
                    }
                } else {
                    Err(PlanError::RowsOffsetNotNonNegativeInteger)
                }
            },
            OffsetSpec::Other => Err(PlanError::RowsOffsetNotNonNegativeInteger),
        },
        // For RANGE the offset could be anything depending on the type of
        // the ORDER BY key, so it stays textual.
        WindowFrameUnits::Range => match v {
            OffsetSpec::Number(value) => Ok(ScalarVal::Utf8(Some(value))),
            OffsetSpec::Interval(iv) => match iv.value {
                IntervalValue::Quoted(item) => {
                    match iv.leading_field {
                        Some(f) => {
                            let mut s = item;
                            s.append(" ");
                            s.append(f.as_str());
                            proof {
                                assert(" "@ =~= seq![' ']) by {
                                    reveal_strlit(" ");
                                }
                            }
                            Ok(ScalarVal::Utf8(Some(s)))
                        },
                        None => Ok(ScalarVal::Utf8(Some(item))),
                    }
                },
                IntervalValue::Other(d) => Err(PlanError::IntervalNotString(d)),
            },
            OffsetSpec::Other => Err(PlanError::RangeOffsetInvalid),
        },
    }
}

/// The frame boundary a textual boundary clause parses to: an absent
/// offset is the unbounded form (a null integer scalar); a present offset
/// converts under the unit kind.
pub open spec fn spec_try_parse_bound(
    units: WindowFrameUnits,
    b: SpecFrameBoundSpec,
) -> Result<SpecFrameBound, SpecPlanError> {
    match b {
        SpecFrameBoundSpec::Preceding(ov) => match ov {
            Some(v) => match spec_convert_offset(units, v) {
                Ok(s) => Ok(SpecFrameBound::Preceding(s)),
                Err(e) => Err(e),
            },
            None => Ok(SpecFrameBound::Preceding(SpecScalar::UInt64(None))),
        },
        SpecFrameBoundSpec::CurrentRow => Ok(SpecFrameBound::CurrentRow),
        SpecFrameBoundSpec::Following(ov) => match ov {
            Some(v) => match spec_convert_offset(units, v) {
                Ok(s) => Ok(SpecFrameBound::Following(s)),
                Err(e) => Err(e),
            },
            None => Ok(SpecFrameBound::Following(SpecScalar::UInt64(None))),
        },
    }
}

impl WindowFrameBound {
    /// Parses a textual boundary clause under the given unit kind.
    pub fn try_parse(value: FrameBoundSpec, units: WindowFrameUnits) -> (r: Result<
        WindowFrameBound,
        PlanError,
    >)
        ensures
            match spec_try_parse_bound(units, value@) {
                Ok(b) => r is Ok && r.unwrap()@ == b,
                Err(e) => r is Err && r.unwrap_err()@ == e,
            },
    {
        match value {
            FrameBoundSpec::Preceding(Some(v)) => {
                match convert_frame_bound_to_scalar_value(v, units) {
                    Ok(s) => Ok(WindowFrameBound::Preceding(s)),
                    Err(e) => Err(e),
                }
            },
            FrameBoundSpec::Preceding(None) => Ok(
                WindowFrameBound::Preceding(ScalarVal::UInt64(None)),
            ),
            FrameBoundSpec::Following(Some(v)) => {
                match convert_frame_bound_to_scalar_value(v, units) {
                    Ok(s) => Ok(WindowFrameBound::Following(s)),
                    Err(e) => Err(e),
                }
            },
            FrameBoundSpec::Following(None) => Ok(
                WindowFrameBound::Following(ScalarVal::UInt64(None)),
            ),
            FrameBoundSpec::CurrentRow => Ok(WindowFrameBound::CurrentRow),
        }
    }
}

/// The two validated boundaries of a textual frame specification: both
/// clauses must parse, the start must not be unbounded-following, and the
/// end must not be unbounded-preceding.  An absent end clause defaults to
/// the current row.
pub open spec fn spec_try_new(f: SpecFrameSpec) -> Result<
    (SpecFrameBound, SpecFrameBound),
    SpecPlanError,
> {
    match spec_try_parse_bound(f.units, f.start_bound) {
        Err(e) => Err(e),
        Ok(start) => {
            let end_result = match f.end_bound {
                Some(b) => spec_try_parse_bound(f.units, b),
                None => Ok(SpecFrameBound::CurrentRow),
            };
            match end_result {
                Err(e) => Err(e),
                Ok(end) => {
                    if (start matches SpecFrameBound::Following(v) && v.is_null()) {
                        Err(SpecPlanError::StartBoundUnboundedFollowing)
                    } else if (end matches SpecFrameBound::Preceding(v) && v.is_null()) {
                        Err(SpecPlanError::EndBoundUnboundedPreceding)
                    } else {
                        Ok((start, end))
                    }
                },
            }
        },
    }
}

impl WindowFrame {
    /// Builds a validated window frame from a textual frame specification,
    /// rejecting an unbounded-following start, an unbounded-preceding end,
    /// and malformed offsets.
    pub fn try_new(value: FrameSpec) -> (r: Result<WindowFrame, PlanError>)
        ensures
            match spec_try_new(value@) {
                Ok(bounds) => {
                    &&& r is Ok
                    &&& r.unwrap()@.units == value@.units
                    &&& r.unwrap()@.start_bound == bounds.0
                    &&& r.unwrap()@.end_bound == bounds.1
                    &&& r.unwrap()@.causal == spec_causal_of(value@.units, bounds.1)
                },
                Err(e) => r is Err && r.unwrap_err()@ == e,
            },
    {
        let units = value.units;
        let start_bound = match WindowFrameBound::try_parse(value.start_bound, units) {
            Ok(b) => b,
            Err(e) => {
                return Err(e);
            },
        };
        let end_bound = match value.end_bound {
            Some(bound) => match WindowFrameBound::try_parse(bound, units) {
                Ok(b) => b,
                Err(e) => {
                    return Err(e);
                },
            },
            None => WindowFrameBound::CurrentRow,
        };
        match &start_bound {
            WindowFrameBound::Following(val) => {
                if val.is_null() {
                    return Err(PlanError::StartBoundUnboundedFollowing);
                }
            },
            _ => {},
        }
        match &end_bound {
            WindowFrameBound::Preceding(val) => {
                if val.is_null() {
                    return Err(PlanError::EndBoundUnboundedPreceding);
                }
            },
            _ => {},
        }
        Ok(Self::new_bounds(units, start_bound, end_bound))
    }
}

/// Mathematical model of an ORDER BY sort key.
pub struct SpecSort {
    pub expr: SpecExpr,
    pub asc: bool,
    pub nulls_first: bool,
}

/// An ORDER BY sort key: an expression with its direction and null
/// placement.
#[derive(Debug, PartialEq)]
pub struct Sort {
    pub expr: Expr,
    pub asc: bool,
    pub nulls_first: bool,
}

impl View for Sort {
    type V = SpecSort;

    open spec fn view(&self) -> SpecSort {
        SpecSort { expr: self.expr@, asc: self.asc, nulls_first: self.nulls_first }
    }
}

impl DeepView for Sort {
    type V = SpecSort;

    open spec fn deep_view(&self) -> SpecSort {
        self.view()
    }
}

impl Clone for Sort {
    /// Deep copy with the same mathematical value.
    fn clone(&self) -> (r: Self)
        ensures
            r@ == self@,
    {
        Sort { expr: self.expr.clone(), asc: self.asc, nulls_first: self.nulls_first }
    }
}

/// The constant sort key used when a free-range RANGE frame has no ORDER
/// BY clause.
pub open spec fn spec_constant_sort() -> SpecSort {
    SpecSort {
        expr: SpecExpr::Literal { value: SpecScalar::UInt64(Some(1)) },
        asc: true,
        nulls_first: false,
    }
}

impl WindowFrame {
    /// Regularizes the ORDER BY clause of the window frame: a free-range
    /// RANGE frame without sort keys gains a constant key; any other RANGE
    /// frame requires exactly one key and a GROUPS frame at least one.
    pub fn regularize_order_bys(&self, order_by: &mut Vec<Sort>) -> (r: Result<(), PlanError>)
        ensures
            self@.units == WindowFrameUnits::Rows ==> r is Ok && final(order_by).deep_view()
                == old(order_by).deep_view(),
            (self@.units == WindowFrameUnits::Range && spec_free_range(
                self@.start_bound,
                self@.end_bound,
            )) ==> {
                &&& r is Ok
                &&& old(order_by)@.len() == 0 ==> final(order_by).deep_view() == seq![
                    spec_constant_sort(),
                ]
                &&& old(order_by)@.len() > 0 ==> final(order_by).deep_view() == old(
                    order_by,
                ).deep_view()
            },
            (self@.units == WindowFrameUnits::Range && !spec_free_range(
                self@.start_bound,
                self@.end_bound,
            )) ==> {
                &&& old(order_by)@.len() == 1 ==> r is Ok
                &&& old(order_by)@.len() != 1 ==> r is Err && r.unwrap_err()@
                    == SpecPlanError::RangeRequiresOneOrderBy
                &&& final(order_by).deep_view() == old(order_by).deep_view()
            },
            self@.units == WindowFrameUnits::Groups ==> {
                &&& old(order_by)@.len() > 0 ==> r is Ok
                &&& old(order_by)@.len() == 0 ==> r is Err && r.unwrap_err()@
                    == SpecPlanError::GroupsRequiresOrderBy
                &&& final(order_by).deep_view() == old(order_by).deep_view()
            },
    {
        match self.units {
            WindowFrameUnits::Range => {
                if self.free_range() {
                    // Without an ORDER BY clause, a constant sort key is
                    // equivalent; with one or more keys the clause stays
                    // unchanged.
                    if order_by.is_empty() {
                        let ghost before = order_by.deep_view();
                        order_by.push(
                            Sort {
                                expr: Expr::Literal { value: ScalarVal::UInt64(Some(1)) },
                                asc: true,
                                nulls_first: false,
                            },
                        );
                        proof {
                            crate::seqs::lemma_vec_deep_view(*order_by);
                            assert(order_by.deep_view() =~= seq![spec_constant_sort()]);
                        }
                    }
                    Ok(())
                } else if order_by.len() != 1 {
                    Err(PlanError::RangeRequiresOneOrderBy)
                } else {
                    Ok(())
                }
            },
            WindowFrameUnits::Groups => {
                if order_by.is_empty() {
                    Err(PlanError::GroupsRequiresOrderBy)
                } else {
                    Ok(())
                }
            },
            WindowFrameUnits::Rows => Ok(()),
        }
    }
}

/// The keyword of a frame unit kind.
pub open spec fn spec_units_str(u: WindowFrameUnits) -> Seq<char> {
    match u {
        WindowFrameUnits::Rows => "ROWS"@,
        WindowFrameUnits::Range => "RANGE"@,
        WindowFrameUnits::Groups => "GROUPS"@,
    }
}

impl WindowFrameUnits {
    /// The frame unit keyword.
    pub fn display_str(&self) -> (r: &'static str)
        ensures
            r@ == spec_units_str(*self),
    {
        match self {
            WindowFrameUnits::Rows => "ROWS",
            WindowFrameUnits::Range => "RANGE",
            WindowFrameUnits::Groups => "GROUPS",
        }
    }
}

/// The rendering of a frame boundary.
pub open spec fn spec_frame_bound_str(b: SpecFrameBound) -> Seq<char> {
    match b {
        SpecFrameBound::Preceding(v) => if v.is_null() {
            "UNBOUNDED PRECEDING"@
        } else {
            spec_scalar_str(v) + " PRECEDING"@
        },
        SpecFrameBound::CurrentRow => "CURRENT ROW"@,
        SpecFrameBound::Following(v) => if v.is_null() {
            "UNBOUNDED FOLLOWING"@
        } else {
            spec_scalar_str(v) + " FOLLOWING"@
        },
    }
}

impl WindowFrameBound {
    /// Renders the boundary.
    pub fn display_string(&self) -> (r: String)
        ensures
            r@ == spec_frame_bound_str(self@),
    {
        match self {
            WindowFrameBound::Preceding(n) => {
                if n.is_null() {
                    String::from_str("UNBOUNDED PRECEDING")
                } else {
                    let mut s = n.display_string();
                    s.append(" PRECEDING");
                    s
                }
            },
            WindowFrameBound::CurrentRow => String::from_str("CURRENT ROW"),
            WindowFrameBound::Following(n) => {
                if n.is_null() {
                    String::from_str("UNBOUNDED FOLLOWING")
                } else {
                    let mut s = n.display_string();
                    s.append(" FOLLOWING");
                    s
                }
            },
        }
    }
}

/// The rendering of a window frame:
/// `<UNITS> BETWEEN <start> AND <end>`.
pub open spec fn spec_frame_str(f: SpecWindowFrame) -> Seq<char> {
    spec_units_str(f.units) + " BETWEEN "@ + spec_frame_bound_str(f.start_bound) + " AND "@
        + spec_frame_bound_str(f.end_bound)
}

impl WindowFrame {
    /// Renders the frame specification.
    pub fn display_string(&self) -> (r: String)
        ensures
            r@ == spec_frame_str(self@),
    {
        let mut s = String::from_str(self.units.display_str());
        s.append(" BETWEEN ");
        s.append(self.start_bound.display_string().as_str());
        s.append(" AND ");
        s.append(self.end_bound.display_string().as_str());
        s
    }
}

} // verus!
