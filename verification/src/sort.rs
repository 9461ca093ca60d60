//! Sort expressions and sort requirements.
//!
//! A sort expression carries an expression with its ordering options; a
//! sort requirement may leave the options open.  Normalization rewrites the
//! carried expression only and leaves the ordering metadata untouched; a
//! normalized requirement list is then collapsed so that only the first
//! occurrence of each expression remains.

use vstd::prelude::*;
use crate::expr::{Expr, SpecExpr};

verus! {

/// Ordering options of one sort key.
#[derive(Debug, Clone, Copy, PartialEq, Eq, Hash, Structural)]
pub struct SortOptions {
    pub descending: bool,
    pub nulls_first: bool,
}

/// Mathematical model of a sort expression.
pub struct SpecSortExpr {
    pub expr: SpecExpr,
    pub options: SortOptions,
}

/// An expression together with its ordering options.
#[derive(Debug, PartialEq)]
pub struct SortExpr {
    pub expr: Expr,
    pub options: SortOptions,
}

impl View for SortExpr {
    type V = SpecSortExpr;

    open spec fn view(&self) -> SpecSortExpr {
        SpecSortExpr { expr: self.expr@, options: self.options }
    }
}

impl DeepView for SortExpr {
    type V = SpecSortExpr;

    open spec fn deep_view(&self) -> SpecSortExpr {
        self.view()
    }
}

impl Clone for SortExpr {
    /// Deep copy with the same mathematical value.
    fn clone(&self) -> (r: Self)
        ensures
            r@ == self@,
    {
        SortExpr { expr: self.expr.clone(), options: self.options }
    }
}

/// Mathematical model of a sort requirement.
pub struct SpecSortRequirement {
    pub expr: SpecExpr,
    pub options: Option<SortOptions>,
}

/// An expression that some operator requires sorted, with optional ordering
/// options (absent options mean any ordering direction satisfies it).
#[derive(Debug, PartialEq)]
pub struct SortRequirement {
    pub expr: Expr,
    pub options: Option<SortOptions>,
}

impl View for SortRequirement {
    type V = SpecSortRequirement;

    open spec fn view(&self) -> SpecSortRequirement {
        SpecSortRequirement { expr: self.expr@, options: self.options }
    }
}

impl DeepView for SortRequirement {
    type V = SpecSortRequirement;

    open spec fn deep_view(&self) -> SpecSortRequirement {
        self.view()
    }
}

impl Clone for SortRequirement {
    /// Deep copy with the same mathematical value.
    fn clone(&self) -> (r: Self)
        ensures
            r@ == self@,
    {
        SortRequirement { expr: self.expr.clone(), options: self.options }
    }
}

/// The requirement a sort expression induces: same expression, its options
/// pinned.
pub open spec fn spec_sort_to_req(s: SpecSortExpr) -> SpecSortRequirement {
    SpecSortRequirement { expr: s.expr, options: Some(s.options) }
}

/// The sort expression a requirement induces: absent options become the
/// conventional default (ascending, nulls first).
pub open spec fn spec_req_to_sort(r: SpecSortRequirement) -> SpecSortExpr {
    SpecSortExpr {
        expr: r.expr,
        options: match r.options {
            Some(o) => o,
            None => SortOptions { descending: false, nulls_first: true },
        },
    }
}

/// Converts a sort expression into a sort requirement.
pub fn sort_to_req(s: &SortExpr) -> (r: SortRequirement)
    ensures
        r@ == spec_sort_to_req(s@),
{
    SortRequirement { expr: s.expr.clone(), options: Some(s.options) }
}

/// Converts a sort requirement into a sort expression.
pub fn req_to_sort(r: &SortRequirement) -> (s: SortExpr)
    ensures
        s@ == spec_req_to_sort(r@),
{
    SortExpr {
        expr: r.expr.clone(),
        options: match r.options {
            Some(o) => o,
            None => SortOptions { descending: false, nulls_first: true },
        },
    }
}

/// Whether some entry of `s` carries the expression `e`.
pub open spec fn reqs_contain_expr(s: Seq<SpecSortRequirement>, e: SpecExpr) -> bool {
    exists|i: int| 0 <= i < s.len() && (#[trigger] s[i]).expr == e
}

/// One collapse step: an entry whose expression is already present is
/// dropped; otherwise it is appended.
pub open spec fn collapse_step(
    acc: Seq<SpecSortRequirement>,
    r: SpecSortRequirement,
) -> Seq<SpecSortRequirement> {
    if reqs_contain_expr(acc, r.expr) {
        acc
    } else {
        acc.push(r)
    }
}

pub open spec fn collapse_absorb(
    acc: Seq<SpecSortRequirement>,
    rest: Seq<SpecSortRequirement>,
) -> Seq<SpecSortRequirement>
    decreases rest.len(),
{
    if rest.len() == 0 {
        acc
    } else {
        collapse_absorb(collapse_step(acc, rest[0]), rest.drop_first())
    }
}

/// A requirement list with later duplicates of the same expression dropped:
/// the first occurrence keeps its ordering options and the relative order
/// of the remaining entries is preserved.
pub open spec fn spec_collapse(s: Seq<SpecSortRequirement>) -> Seq<SpecSortRequirement> {
    collapse_absorb(Seq::empty(), s)
}

/// Absorbing `rest.push(x)` is absorbing `rest`, then one collapse step.
pub proof fn lemma_collapse_absorb_snoc(
    acc: Seq<SpecSortRequirement>,
    rest: Seq<SpecSortRequirement>,
    x: SpecSortRequirement,
)
    ensures
        collapse_absorb(acc, rest.push(x)) == collapse_step(collapse_absorb(acc, rest), x),
    decreases rest.len(),
{
    if rest.len() == 0 {
        assert(rest.push(x)[0] == x);
        assert(rest.push(x).drop_first() =~= Seq::<SpecSortRequirement>::empty());
        assert(collapse_absorb(acc, rest.push(x)) == collapse_absorb(
            collapse_step(acc, x),
            Seq::<SpecSortRequirement>::empty(),
        ));
    } else {
        assert(rest.push(x)[0] == rest[0]);
        assert(rest.push(x).drop_first() =~= rest.drop_first().push(x));
        lemma_collapse_absorb_snoc(collapse_step(acc, rest[0]), rest.drop_first(), x);
        assert(collapse_absorb(acc, rest.push(x)) == collapse_absorb(
            collapse_step(acc, rest[0]),
            rest.drop_first().push(x),
        ));
        assert(collapse_absorb(acc, rest) == collapse_absorb(
            collapse_step(acc, rest[0]),
            rest.drop_first(),
        ));
    }
}

/// Collapses a requirement list: later entries that repeat an earlier
/// entry's expression are dropped.
pub fn collapse_reqs(reqs: Vec<SortRequirement>) -> (r: Vec<SortRequirement>)
    ensures
        r.deep_view() == spec_collapse(reqs.deep_view()),
{
    let ghost input = reqs.deep_view();
    let mut out: Vec<SortRequirement> = Vec::new();
    let n = reqs.len();
    proof {
        crate::seqs::lemma_vec_deep_view(reqs);
        assert(input.take(0) =~= Seq::<SpecSortRequirement>::empty());
    }
    for i in 0..n
        invariant
            n == reqs.len(),
            input == reqs.deep_view(),
            input.len() == n,
            out.deep_view() == collapse_absorb(Seq::empty(), input.take(i as int)),
    {
        proof {
            crate::seqs::lemma_vec_deep_view(reqs);
            crate::seqs::lemma_vec_deep_view(out);
        }
        let ghost prev = out.deep_view();
        let mut found = false;
        let m = out.len();
        for k in 0..m
            invariant
                m == out.len(),
                n == reqs.len(),
                i < n,
                input == reqs.deep_view(),
                input.len() == n,
                prev == out.deep_view(),
                found ==> reqs_contain_expr(prev, input[i as int].expr),
                !found ==> forall|j: int| 0 <= j < k ==> (#[trigger] prev[j]).expr != input[
                    i as int].expr,
        {
            proof {
                crate::seqs::lemma_vec_deep_view(out);
            }
            if out[k].expr.eq_expr(&reqs[i].expr) {
                proof {
                    assert(prev[k as int].expr == input[i as int].expr);
                }
                found = true;
            }
        }
        let ghost outv0 = out;
        if !found {
            out.push(reqs[i].clone());
        }
        proof {
            crate::seqs::lemma_vec_deep_view(outv0);
            crate::seqs::lemma_vec_deep_view(out);
            assert(input.take(i + 1) =~= input.take(i as int).push(input[i as int]));
            lemma_collapse_absorb_snoc(
                Seq::<SpecSortRequirement>::empty(),
                input.take(i as int),
                input[i as int],
            );
            if found {
                assert(reqs_contain_expr(prev, input[i as int].expr));
                assert(out.deep_view() == prev);
            } else {
                assert(!reqs_contain_expr(prev, input[i as int].expr)) by {
                    if reqs_contain_expr(prev, input[i as int].expr) {
                        let j = choose|j: int|
                            0 <= j < prev.len() && (#[trigger] prev[j]).expr == input[
                                i as int].expr;
                    }
                }
                assert(out.deep_view() =~= prev.push(input[i as int]));
            }
        }
    }
    proof {
        assert(input.take(n as int) =~= input);
    }
    out
}

} // verus!
