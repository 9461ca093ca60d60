//! Human-readable renderings.
//!
//! Each type exposes a method returning a `String`; the contracts pin the
//! exact character sequence produced.  Classes render as bracketed
//! comma-joined expression lists; constant-expression records carry their
//! uniformity annotation; window frames reconstruct
//! `<UNITS> BETWEEN <start> AND <end>`.

use vstd::prelude::*;
use crate::class::{AcrossPartitions, ConstExpr, EquivalenceClass, SpecAcrossPartitions};
use crate::expr::{Expr, Operator, SpecExpr};
use crate::group::EquivalenceGroup;
use crate::scalar::{ScalarVal, SpecScalar};
use crate::seqs::{lemma_slice_deep_view, lemma_vec_deep_view};

verus! {

broadcast use crate::class::lemma_class_deep_view, crate::class::lemma_const_expr_deep_view;

/// The character of one decimal digit.
pub open spec fn spec_digit_char(d: int) -> char {
    if d == 0 {
        '0'
    } else if d == 1 {
        '1'
    } else if d == 2 {
        '2'
    } else if d == 3 {
        '3'
    } else if d == 4 {
        '4'
    } else if d == 5 {
        '5'
    } else if d == 6 {
        '6'
    } else if d == 7 {
        '7'
    } else if d == 8 {
        '8'
    } else {
        '9'
    }
}

/// The decimal rendering of a non-negative integer.
pub open spec fn spec_nat_str(n: int) -> Seq<char>
    decreases n,
{
    if n < 10 {
        seq![spec_digit_char(n)]
    } else {
        spec_nat_str(n / 10).push(spec_digit_char(n % 10))
    }
}

/// The decimal rendering of a signed integer.
pub open spec fn spec_int_str(n: int) -> Seq<char> {
    if n < 0 {
        seq!['-'] + spec_nat_str(-n)
    } else {
        spec_nat_str(n)
    }
}

fn digit_str(d: u64) -> (r: &'static str)
    requires
        d < 10,
    ensures
        r@ == seq![spec_digit_char(d as int)],
{
    if d == 0 {
        proof {
            reveal_strlit("0");
        }
        "0"
    } else if d == 1 {
        proof {
            reveal_strlit("1");
        }
        "1"
    } else if d == 2 {
        proof {
            reveal_strlit("2");
        }
        "2"
    } else if d == 3 {
        proof {
            reveal_strlit("3");
        }
        "3"
    } else if d == 4 {
        proof {
            reveal_strlit("4");
        }
        "4"
    } else if d == 5 {
        proof {
            reveal_strlit("5");
        }
        "5"
    } else if d == 6 {
        proof {
            reveal_strlit("6");
        }
        "6"
    } else if d == 7 {
        proof {
            reveal_strlit("7");
        }
        "7"
    } else if d == 8 {
        proof {
            reveal_strlit("8");
        }
        "8"
    } else {
        proof {
            reveal_strlit("9");
        }
        "9"
    }
}

/// Renders a `u64` in decimal.
pub fn u64_str(v: u64) -> (r: String)
    ensures
        r@ == spec_nat_str(v as int),
    decreases v,
{
    if v < 10 {
        String::from_str(digit_str(v))
    } else {
        let mut s = u64_str(v / 10);
        s.append(digit_str(v % 10));
        s
    }
}

/// Renders a `usize` in decimal.
pub fn usize_str(v: usize) -> (r: String)
    ensures
        r@ == spec_nat_str(v as int),
{
    u64_str(v as u64)
}

/// Renders an `i32` in decimal, with a leading minus sign when negative.
pub fn i32_str(v: i32) -> (r: String)
    ensures
        r@ == spec_int_str(v as int),
{
    if v < 0 {
        let mut s = String::from_str("-");
        proof {
            reveal_strlit("-");
        }
        let mag = (-(v as i64)) as u64;
        s.append(u64_str(mag).as_str());
        s
    } else {
        u64_str(v as u64)
    }
}

/// The rendering of a scalar: its value in the usual literal syntax, or
/// `NULL` for the null scalar of any type.
pub open spec fn spec_scalar_str(s: SpecScalar) -> Seq<char> {
    match s {
        SpecScalar::UInt64(v) => match v {
            Some(x) => spec_nat_str(x as int),
            None => "NULL"@,
        },
        SpecScalar::Int32(v) => match v {
            Some(x) => spec_int_str(x as int),
            None => "NULL"@,
        },
        SpecScalar::Boolean(v) => match v {
            Some(x) => if x {
                "true"@
            } else {
                "false"@
            },
            None => "NULL"@,
        },
        SpecScalar::Utf8(v) => match v {
            Some(x) => x,
            None => "NULL"@,
        },
    }
}

impl ScalarVal {
    /// Renders the scalar.
    pub fn display_string(&self) -> (r: String)
        ensures
            r@ == spec_scalar_str(self@),
    {
        match self {
            ScalarVal::UInt64(v) => match v {
                Some(x) => u64_str(*x),
                None => String::from_str("NULL"),
            },
            ScalarVal::Int32(v) => match v {
                Some(x) => i32_str(*x),
                None => String::from_str("NULL"),
            },
            ScalarVal::Boolean(v) => match v {
                Some(x) => if *x {
                    String::from_str("true")
                } else {
                    String::from_str("false")
                },
                None => String::from_str("NULL"),
            },
            ScalarVal::Utf8(v) => match v {
                Some(x) => x.clone(),
                None => String::from_str("NULL"),
            },
        }
    }
}

/// The token of a binary operator.
pub open spec fn spec_op_str(op: Operator) -> Seq<char> {
    match op {
        Operator::Plus => "+"@,
        Operator::Minus => "-"@,
        Operator::Multiply => "*"@,
        Operator::Divide => "/"@,
        Operator::Eq => "="@,
        Operator::NotEq => "!="@,
        Operator::Lt => "<"@,
        Operator::Gt => ">"@,
        Operator::And => "AND"@,
        Operator::Or => "OR"@,
    }
}

fn op_str(op: Operator) -> (r: &'static str)
    ensures
        r@ == spec_op_str(op),
{
    match op {
        Operator::Plus => "+",
        Operator::Minus => "-",
        Operator::Multiply => "*",
        Operator::Divide => "/",
        Operator::Eq => "=",
        Operator::NotEq => "!=",
        Operator::Lt => "<",
        Operator::Gt => ">",
        Operator::And => "AND",
        Operator::Or => "OR",
    }
}

/// The rendering of an expression: a column as `name@index`, a literal as
/// its scalar, and a binary node as its operands around the operator token
/// with compound operands parenthesized.
pub open spec fn spec_expr_str(e: SpecExpr) -> Seq<char>
    decreases e, 1int,
{
    match e {
        SpecExpr::Column { name, index } => name + "@"@ + spec_nat_str(index),
        SpecExpr::Literal { value } => spec_scalar_str(value),
        SpecExpr::Binary { op, left, right } => spec_expr_child_str(*left) + " "@ + spec_op_str(
            op,
        ) + " "@ + spec_expr_child_str(*right),
    }
}

/// The rendering of a child operand: compound operands gain parentheses.
pub open spec fn spec_expr_child_str(e: SpecExpr) -> Seq<char>
    decreases e, 2int,
{
    if e is Binary {
        "("@ + spec_expr_str(e) + ")"@
    } else {
        spec_expr_str(e)
    }
}

impl Expr {
    /// Renders the expression.
    pub fn display_string(&self) -> (r: String)
        ensures
            r@ == spec_expr_str(self@),
        decreases self, 1int,
    {
        match self {
            Expr::Column { name, index } => {
                let mut s = name.clone();
                s.append("@");
                s.append(usize_str(*index).as_str());
                s
            },
            Expr::Literal { value } => value.display_string(),
            Expr::Binary { op, left, right } => {
                let mut s = left.child_display_string();
                s.append(" ");
                s.append(op_str(*op));
                s.append(" ");
                s.append(right.child_display_string().as_str());
                s
            },
        }
    }

    /// Renders the expression as an operand, parenthesizing compound ones.
    fn child_display_string(&self) -> (r: String)
        ensures
            r@ == spec_expr_child_str(self@),
        decreases self, 2int,
    {
        match self {
            Expr::Binary { .. } => {
                let mut s = String::from_str("(");
                s.append(self.display_string().as_str());
                s.append(")");
                s
            },
            _ => self.display_string(),
        }
    }
}

/// The items joined with the separator between consecutive entries.
pub open spec fn spec_join_strs(items: Seq<Seq<char>>, sep: Seq<char>) -> Seq<char>
    decreases items.len(),
{
    if items.len() == 0 {
        Seq::empty()
    } else if items.len() == 1 {
        items[0]
    } else {
        spec_join_strs(items.drop_last(), sep) + sep + items.last()
    }
}

/// The rendering of an equivalence class: its members, comma-joined, in
/// brackets.
pub open spec fn spec_class_str(c: Seq<SpecExpr>) -> Seq<char> {
    "["@ + spec_join_strs(c.map_values(|e: SpecExpr| spec_expr_str(e)), ", "@) + "]"@
}

impl EquivalenceClass {
    /// Renders the class as a bracketed comma-joined expression list.
    pub fn display_string(&self) -> (r: String)
        ensures
            r@ == spec_class_str(self@),
    {
        let ghost strs = self@.map_values(|e: SpecExpr| spec_expr_str(e));
        let members = self.iter();
        let n = members.len();
        proof {
            lemma_vec_deep_view(*members);
            assert(strs.take(0) =~= Seq::<Seq<char>>::empty());
        }
        let mut s = String::from_str("[");
        for i in 0..n
            invariant
                n == members.len(),
                members.deep_view() == self@,
                strs == self@.map_values(|e: SpecExpr| spec_expr_str(e)),
                strs.len() == n,
                s@ == "["@ + spec_join_strs(strs.take(i as int), ", "@),
        {
            proof {
                lemma_vec_deep_view(*members);
            }
            if i > 0 {
                s.append(", ");
            }
            s.append(members[i].display_string().as_str());
            proof {
                assert(strs.take(i + 1).drop_last() =~= strs.take(i as int));
                assert(strs.take(i + 1).last() == strs[i as int]);
            }
        }
        proof {
            assert(strs.take(n as int) =~= strs);
        }
        s.append("]");
        s
    }
}

/// The rendering of an equivalence group: its classes, comma-joined, in
/// brackets.
pub open spec fn spec_group_str(g: Seq<Seq<SpecExpr>>) -> Seq<char> {
    "["@ + spec_join_strs(g.map_values(|c: Seq<SpecExpr>| spec_class_str(c)), ", "@) + "]"@
}

impl EquivalenceGroup {
    /// Renders the group as a bracketed comma-joined class list.
    pub fn display_string(&self) -> (r: String)
        ensures
            r@ == spec_group_str(self@),
    {
        let ghost strs = self@.map_values(|c: Seq<SpecExpr>| spec_class_str(c));
        let classes = self.iter();
        let n = classes.len();
        proof {
            lemma_vec_deep_view(*classes);
            assert(strs.take(0) =~= Seq::<Seq<char>>::empty());
        }
        let mut s = String::from_str("[");
        for i in 0..n
            invariant
                n == classes.len(),
                classes.deep_view() == self@,
                strs == self@.map_values(|c: Seq<SpecExpr>| spec_class_str(c)),
                strs.len() == n,
                s@ == "["@ + spec_join_strs(strs.take(i as int), ", "@),
        {
            proof {
                lemma_vec_deep_view(*classes);
            }
            if i > 0 {
                s.append(", ");
            }
            s.append(classes[i].display_string().as_str());
            proof {
                assert(strs.take(i + 1).drop_last() =~= strs.take(i as int));
                assert(strs.take(i + 1).last() == strs[i as int]);
            }
        }
        proof {
            assert(strs.take(n as int) =~= strs);
        }
        s.append("]");
        s
    }
}

/// The rendering of a constant-expression record: the expression followed
/// by its uniformity annotation.
pub open spec fn spec_const_expr_str(e: SpecExpr, a: SpecAcrossPartitions) -> Seq<char> {
    spec_expr_str(e) + match a {
        SpecAcrossPartitions::Heterogeneous => "(heterogeneous)"@,
        SpecAcrossPartitions::Uniform(v) => match v {
            Some(x) => "(uniform: "@ + spec_scalar_str(x) + ")"@,
            None => "(uniform: unknown)"@,
        },
    }
}

impl ConstExpr {
    /// Renders the record with its uniformity annotation.
    pub fn display_string(&self) -> (r: String)
        ensures
            r@ == spec_const_expr_str(self@.expr, self@.across_partitions),
    {
        let mut s = self.expr().display_string();
        match self.across_partitions() {
            AcrossPartitions::Heterogeneous => {
                s.append("(heterogeneous)");
            },
            AcrossPartitions::Uniform(v) => match v {
                Some(x) => {
                    s.append("(uniform: ");
                    s.append(x.display_string().as_str());
                    s.append(")");
                },
                None => {
                    s.append("(uniform: unknown)");
                },
            },
        }
        s
    }

    /// Renders a list of records, comma-joined.
    pub fn format_list(input: &[ConstExpr]) -> (r: String)
        ensures
            r@ == spec_join_strs(
                input.deep_view().map_values(
                    |c: crate::class::SpecConstExpr| spec_const_expr_str(
                        c.expr,
                        c.across_partitions,
                    ),
                ),
                ","@,
            ),
    {
        let ghost strs = input.deep_view().map_values(
            |c: crate::class::SpecConstExpr| spec_const_expr_str(c.expr, c.across_partitions),
        );
        let n = input.len();
        proof {
            lemma_slice_deep_view(input);
            assert(strs.take(0) =~= Seq::<Seq<char>>::empty());
        }
        let mut s = String::new();
        for i in 0..n
            invariant
                n == input@.len(),
                strs == input.deep_view().map_values(
                    |c: crate::class::SpecConstExpr| spec_const_expr_str(
                        c.expr,
                        c.across_partitions,
                    ),
                ),
                strs.len() == n,
                s@ == spec_join_strs(strs.take(i as int), ","@),
        {
            proof {
                lemma_slice_deep_view(input);
            }
            if i > 0 {
                s.append(",");
            }
            s.append(input[i].display_string().as_str());
            proof {
                assert(strs.take(i + 1).drop_last() =~= strs.take(i as int));
                assert(strs.take(i + 1).last() == strs[i as int]);
            }
        }
        proof {
            assert(strs.take(n as int) =~= strs);
        }
        s
    }
}

} // verus!
