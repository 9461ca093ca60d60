//! Typed scalar constants.
//!
//! A scalar is the payload of a literal expression and of a window-frame
//! offset.  Each variant carries an optional value; `None` encodes the null
//! scalar of that type (used, for example, to express "unbounded" frame
//! bounds).

use vstd::prelude::*;

verus! {

/// Mathematical model of a scalar constant.
pub enum SpecScalar {
    UInt64(Option<u64>),
    Int32(Option<i32>),
    Boolean(Option<bool>),
    Utf8(Option<Seq<char>>),
}

/// A typed scalar constant.  `None` in a variant is the null value of that
/// type.
#[derive(Debug, PartialEq, Eq, Hash)]
pub enum ScalarVal {
    UInt64(Option<u64>),
    Int32(Option<i32>),
    Boolean(Option<bool>),
    Utf8(Option<String>),
}

impl View for ScalarVal {
    type V = SpecScalar;

    open spec fn view(&self) -> SpecScalar {
        match self {
            ScalarVal::UInt64(v) => SpecScalar::UInt64(*v),
            ScalarVal::Int32(v) => SpecScalar::Int32(*v),
            ScalarVal::Boolean(v) => SpecScalar::Boolean(*v),
            ScalarVal::Utf8(v) => SpecScalar::Utf8(v.deep_view()),
        }
    }
}

impl SpecScalar {
    /// A scalar is null when its optional value is absent.
    pub open spec fn is_null(&self) -> bool {
        match self {
            SpecScalar::UInt64(v) => v is None,
            SpecScalar::Int32(v) => v is None,
            SpecScalar::Boolean(v) => v is None,
            SpecScalar::Utf8(v) => v is None,
        }
    }

    /// A scalar is the zero offset exactly when it is a numeric value equal
    /// to zero.  Non-numeric scalars have no zero, so they never qualify.
    pub open spec fn is_zero(&self) -> bool {
        match self {
            SpecScalar::UInt64(v) => v == Some(0u64),
            SpecScalar::Int32(v) => v == Some(0i32),
            _ => false,
        }
    }

    /// A scalar is a positive offset exactly when it is a numeric value
    /// greater than zero.  Non-numeric scalars never qualify.
    pub open spec fn is_positive(&self) -> bool {
        match self {
            SpecScalar::UInt64(v) => match v {
                Some(x) => x > 0,
                None => false,
            },
            SpecScalar::Int32(v) => match v {
                Some(x) => x > 0,
                None => false,
            },
            _ => false,
        }
    }
}

fn opt_u64_eq(a: &Option<u64>, b: &Option<u64>) -> (r: bool)
    ensures
        r == (a == b),
{
    match a {
        Some(x) => match b {
            Some(y) => *x == *y,
            None => false,
        },
        None => b.is_none(),
    }
}

fn opt_i32_eq(a: &Option<i32>, b: &Option<i32>) -> (r: bool)
    ensures
        r == (a == b),
{
    match a {
        Some(x) => match b {
            Some(y) => *x == *y,
            None => false,
        },
        None => b.is_none(),
    }
}

fn opt_bool_eq(a: &Option<bool>, b: &Option<bool>) -> (r: bool)
    ensures
        r == (a == b),
{
    match a {
        Some(x) => match b {
            Some(y) => *x == *y,
            None => false,
        },
        None => b.is_none(),
    }
}

fn opt_str_eq(a: &Option<String>, b: &Option<String>) -> (r: bool)
    ensures
        r == (a.deep_view() == b.deep_view()),
{
    match a {
        Some(x) => match b {
            Some(y) => x.eq(y),
            None => false,
        },
        None => b.is_none(),
    }
}

impl ScalarVal {
    /// Returns true when the scalar is the null value of its type.
    pub fn is_null(&self) -> (r: bool)
        ensures
            r == self@.is_null(),
    {
        match self {
            ScalarVal::UInt64(v) => v.is_none(),
            ScalarVal::Int32(v) => v.is_none(),
            ScalarVal::Boolean(v) => v.is_none(),
            ScalarVal::Utf8(v) => v.is_none(),
        }
    }

    /// Returns true when the scalar is a numeric zero.
    pub fn is_zero(&self) -> (r: bool)
        ensures
            r == self@.is_zero(),
    {
        match self {
            ScalarVal::UInt64(Some(x)) => *x == 0u64,
            ScalarVal::Int32(Some(x)) => *x == 0i32,
            _ => false,
        }
    }

    /// Returns true when the scalar is a numeric value greater than zero.
    pub fn is_positive(&self) -> (r: bool)
        ensures
            r == self@.is_positive(),
    {
        match self {
            ScalarVal::UInt64(Some(x)) => *x > 0u64,
            ScalarVal::Int32(Some(x)) => *x > 0i32,
            _ => false,
        }
    }

    /// Structural equality of scalars: same variant, same optional value.
    pub fn eq_scalar(&self, other: &ScalarVal) -> (r: bool)
        ensures
            r == (self@ == other@),
    {
        match self {
            ScalarVal::UInt64(a) => match other {
                ScalarVal::UInt64(b) => opt_u64_eq(a, b),
                _ => false,
            },
            ScalarVal::Int32(a) => match other {
                ScalarVal::Int32(b) => opt_i32_eq(a, b),
                _ => false,
            },
            ScalarVal::Boolean(a) => match other {
                ScalarVal::Boolean(b) => opt_bool_eq(a, b),
                _ => false,
            },
            ScalarVal::Utf8(a) => match other {
                ScalarVal::Utf8(b) => opt_str_eq(a, b),
                _ => false,
            },
        }
    }

}

impl Clone for ScalarVal {
    /// Deep copy with the same mathematical value.
    fn clone(&self) -> (r: Self)
        ensures
            r@ == self@,
    {
        match self {
            ScalarVal::UInt64(v) => ScalarVal::UInt64(*v),
            ScalarVal::Int32(v) => ScalarVal::Int32(*v),
            ScalarVal::Boolean(v) => ScalarVal::Boolean(*v),
            ScalarVal::Utf8(v) => ScalarVal::Utf8(
                match v {
                    Some(s) => Some(s.clone()),
                    None => None,
                },
            ),
        }
    }
}

} // verus!
