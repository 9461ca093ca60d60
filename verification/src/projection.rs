//! Projection mappings.
//!
//! A projection mapping is an ordered list of `(source, target)` pairs
//! describing how expressions available before a projection operator map to
//! expressions available after it.  The equivalence machinery consumes it
//! read-only.

use vstd::prelude::*;
use crate::expr::{Expr, SpecExpr};
use crate::seqs::lemma_vec_deep_view;

verus! {

/// An ordered list of `(source, target)` expression pairs produced by a
/// projection operator.
#[derive(Debug)]
pub struct ProjectionMapping {
    pub map: Vec<(Expr, Expr)>,
}

impl View for ProjectionMapping {
    type V = Seq<(SpecExpr, SpecExpr)>;

    open spec fn view(&self) -> Seq<(SpecExpr, SpecExpr)> {
        self.map.deep_view()
    }
}

/// The first pair whose source is exactly `e`, if any.
pub open spec fn spec_find_source(m: Seq<(SpecExpr, SpecExpr)>, e: SpecExpr) -> Option<int>
    decreases m.len(),
{
    if m.len() == 0 {
        None
    } else if m[0].0 == e {
        Some(0)
    } else {
        match spec_find_source(m.drop_first(), e) {
            Some(i) => Some(i + 1),
            None => None,
        }
    }
}

pub proof fn lemma_find_source_props(m: Seq<(SpecExpr, SpecExpr)>, e: SpecExpr)
    ensures
        match spec_find_source(m, e) {
            Some(i) => 0 <= i < m.len() && m[i].0 == e && (forall|j: int|
                0 <= j < i ==> (#[trigger] m[j]).0 != e),
            None => forall|j: int| 0 <= j < m.len() ==> (#[trigger] m[j]).0 != e,
        },
    decreases m.len(),
{
    if m.len() > 0 && m[0].0 != e {
        let t = m.drop_first();
        lemma_find_source_props(t, e);
        match spec_find_source(t, e) {
            Some(i) => {
                assert(t[i] == m[i + 1]);
                assert forall|j: int| 0 <= j < i + 1 implies (#[trigger] m[j]).0 != e by {
                    if j > 0 {
                        assert(t[j - 1] == m[j]);
                    }
                }
            },
            None => {
                assert forall|j: int| 0 <= j < m.len() implies (#[trigger] m[j]).0 != e by {
                    if j > 0 {
                        assert(t[j - 1] == m[j]);
                    }
                }
            },
        }
    }
}

impl ProjectionMapping {
    /// The pairs, in order.
    pub fn iter(&self) -> (r: &Vec<(Expr, Expr)>)
        ensures
            r.deep_view() == self@,
    {
        &self.map
    }

    /// The number of pairs.
    pub fn len(&self) -> (r: usize)
        ensures
            r == self@.len(),
    {
        proof {
            lemma_vec_deep_view(self.map);
        }
        self.map.len()
    }

    /// The target paired with the first source that matches `expr`
    /// exactly, if any.
    pub fn target_expr(&self, expr: &Expr) -> (r: Option<Expr>)
        ensures
            match spec_find_source(self@, expr@) {
                Some(i) => r is Some && r.unwrap()@ == self@[i].1,
                None => r is None,
            },
    {
        let n = self.map.len();
        proof {
            lemma_vec_deep_view(self.map);
        }
        for k in 0..n
            invariant
                n == self.map.len(),
                forall|j: int| 0 <= j < k ==> (#[trigger] self@[j]).0 != expr@,
        {
            proof {
                lemma_vec_deep_view(self.map);
            }
            if self.map[k].0.eq_expr(expr) {
                proof {
                    lemma_find_source_first(self@, expr@, k as int);
                }
                return Some(self.map[k].1.clone());
            }
        }
        proof {
            lemma_find_source_props(self@, expr@);
            if spec_find_source(self@, expr@) is Some {
                let i = spec_find_source(self@, expr@).unwrap();
                assert((self@[i]).0 != expr@);
            }
        }
        None
    }
}

/// The first index whose source equals `e` is what the search finds.
pub proof fn lemma_find_source_first(m: Seq<(SpecExpr, SpecExpr)>, e: SpecExpr, i: int)
    requires
        0 <= i < m.len(),
        m[i].0 == e,
        forall|j: int| 0 <= j < i ==> (#[trigger] m[j]).0 != e,
    ensures
        spec_find_source(m, e) == Some(i),
{
    lemma_find_source_props(m, e);
    match spec_find_source(m, e) {
        Some(j) => {
            if j < i {
                assert(m[j].0 != e);
            } else if j > i {
                assert(m[i].0 != e);
            }
        },
        None => {
            assert(m[i].0 != e);
        },
    }
}

} // verus!
