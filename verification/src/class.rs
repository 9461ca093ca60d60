//! Equivalence classes and constant-expression records.
//!
//! An equivalence class is an insertion-ordered set of distinct expressions
//! known to hold the same value for every row of a relation.  Its canonical
//! representative is the first-inserted member; normalization rewrites toward
//! it.  A `ConstExpr` wraps one expression known to be constant within a
//! relation, tagged with its cross-partition uniformity.

use vstd::prelude::*;
use vstd::std_specs::cmp::PartialEqSpec;
use crate::expr::{Expr, SpecExpr, spec_can_offset, spec_offset_expr};
use crate::scalar::{ScalarVal, SpecScalar};
use crate::seqs::{
    lemma_seq_absorb_props, lemma_seq_absorb_snoc, lemma_seq_dedup_props, lemma_seq_insert_props,
    lemma_vec_deep_view, seq_absorb, seq_dedup, seq_distinct, seq_insert, seqs_overlap,
};

verus! {

/// An insertion-ordered set of expressions that hold the same value for
/// every row of a relation.  Duplicates are silently absorbed; the first
/// member is the class's canonical representative.
#[derive(Debug)]
pub struct EquivalenceClass {
    exprs: Vec<Expr>,
}

impl View for EquivalenceClass {
    type V = Seq<SpecExpr>;

    closed spec fn view(&self) -> Seq<SpecExpr> {
        self.exprs.deep_view()
    }
}

impl DeepView for EquivalenceClass {
    type V = Seq<SpecExpr>;

    closed spec fn deep_view(&self) -> Seq<SpecExpr> {
        self.exprs.deep_view()
    }
}

/// A class's deep view and view agree (both are the member sequence).
pub broadcast proof fn lemma_class_deep_view(c: EquivalenceClass)
    ensures
        #[trigger] c.deep_view() == c@,
{
}

impl EquivalenceClass {
    /// The members are pairwise distinct.
    pub open spec fn wf(&self) -> bool {
        seq_distinct(self@)
    }

    /// Creates a new empty equivalence class.
    pub fn new_empty() -> (r: Self)
        ensures
            r@ == Seq::<SpecExpr>::empty(),
            r.wf(),
    {
        Self { exprs: Vec::new() }
    }

    /// Creates an equivalence class from a vector of expressions, absorbing
    /// duplicates while keeping each first occurrence in order.
    pub fn new(exprs: Vec<Expr>) -> (r: Self)
        ensures
            r@ == seq_dedup(exprs.deep_view()),
            r.wf(),
    {
        let mut r = Self::new_empty();
        let n = exprs.len();
        proof {
            assert(exprs.deep_view().take(0) =~= Seq::<SpecExpr>::empty());
        }
        for i in 0..n
            invariant
                n == exprs.len(),
                r@ == seq_dedup(exprs.deep_view().take(i as int)),
                r.wf(),
        {
            let ghost prev = exprs.deep_view().take(i as int);
            r.push(exprs[i].clone());
            proof {
                assert(exprs.deep_view().take(i + 1) =~= prev.push(exprs.deep_view()[i as int]));
                lemma_seq_absorb_snoc(
                    Seq::<SpecExpr>::empty(),
                    prev,
                    exprs.deep_view()[i as int],
                );
            }
        }
        proof {
            assert(exprs.deep_view().take(n as int) =~= exprs.deep_view());
        }
        r
    }

    /// Hands back the members, in insertion order.
    pub fn into_vec(self) -> (r: Vec<Expr>)
        ensures
            r.deep_view() == self@,
    {
        self.exprs
    }

    /// The canonical representative: the first-inserted member, or nothing
    /// when the class is empty.
    pub fn canonical_expr(&self) -> (r: Option<Expr>)
        ensures
            match r {
                Some(e) => self@.len() > 0 && e@ == self@[0],
                None => self@.len() == 0,
            },
    {
        if self.exprs.len() == 0 {
            None
        } else {
            Some(self.exprs[0].clone())
        }
    }

    /// Inserts an expression, absorbing it silently when already present.
    pub fn push(&mut self, expr: Expr)
        ensures
            final(self)@ == seq_insert(old(self)@, expr@),
            old(self).wf() ==> final(self).wf(),
    {
        proof {
            lemma_seq_insert_props(self@, expr@);
        }
        if !self.contains(&expr) {
            self.exprs.push(expr);
            proof {
                assert(self@ =~= old(self)@.push(expr@));
            }
        }
    }

    /// Inserts every member of `other`, in order, absorbing duplicates.
    pub fn extend(&mut self, other: Self)
        ensures
            final(self)@ == seq_absorb(old(self)@, other@),
            old(self).wf() ==> final(self).wf(),
    {
        let n = other.exprs.len();
        let mut v = other.exprs;
        let ghost o = v.deep_view();
        proof {
            assert(o.take(0) =~= Seq::<SpecExpr>::empty());
            lemma_seq_absorb_props(old(self)@, o.take(0));
        }
        for i in 0..n
            invariant
                n == v.len(),
                v.deep_view() == o,
                self@ == seq_absorb(old(self)@, o.take(i as int)),
                old(self).wf() ==> self.wf(),
        {
            let ghost prev = o.take(i as int);
            self.push(v[i].clone());
            proof {
                assert(o.take(i + 1) =~= prev.push(o[i as int]));
                lemma_seq_absorb_snoc(old(self)@, prev, o[i as int]);
            }
        }
        proof {
            assert(o.take(n as int) =~= o);
        }
    }

    /// Membership test by structural equality.
    pub fn contains(&self, expr: &Expr) -> (r: bool)
        ensures
            r == self@.contains(expr@),
    {
        let n = self.exprs.len();
        for i in 0..n
            invariant
                n == self.exprs.len(),
                forall|j: int| 0 <= j < i ==> self@[j] != expr@,
        {
            proof {
                lemma_vec_deep_view(self.exprs);
            }
            if self.exprs[i].eq_expr(expr) {
                proof {
                    assert(self@[i as int] == expr@);
                }
                return true;
            }
        }
        false
    }

    /// Returns true when this class and `other` have at least one member in
    /// common.
    pub fn contains_any(&self, other: &Self) -> (r: bool)
        ensures
            r == seqs_overlap(self@, other@),
    {
        let n = self.exprs.len();
        for i in 0..n
            invariant
                n == self.exprs.len(),
                forall|j: int| 0 <= j < i ==> !other@.contains(#[trigger] self@[j]),
        {
            proof {
                lemma_vec_deep_view(self.exprs);
            }
            if other.contains(&self.exprs[i]) {
                proof {
                    assert(self@.contains(self@[i as int]));
                }
                return true;
            }
        }
        false
    }

    /// The number of members.
    pub fn len(&self) -> (r: usize)
        ensures
            r == self@.len(),
    {
        self.exprs.len()
    }

    /// Returns true when the class has no members.
    pub fn is_empty(&self) -> (r: bool)
        ensures
            r == (self@.len() == 0),
    {
        self.exprs.is_empty()
    }

    /// The members, in insertion order.
    pub fn iter(&self) -> (r: &Vec<Expr>)
        ensures
            r.deep_view() == self@,
    {
        &self.exprs
    }

    /// A new class with every member's column indices shifted up by
    /// `offset`; used when a right-hand relation's schema is appended after
    /// a left-hand relation of width `offset`.
    pub fn with_offset(&self, offset: usize) -> (r: Self)
        requires
            forall|i: int| 0 <= i < self@.len() ==> spec_can_offset(
                #[trigger] self@[i],
                offset as int,
            ),
        ensures
            r@ == seq_dedup(self@.map_values(|e: SpecExpr| spec_offset_expr(e, offset as int))),
            r.wf(),
    {
        let ghost target = self@.map_values(|e: SpecExpr| spec_offset_expr(e, offset as int));
        let mut v: Vec<Expr> = Vec::new();
        let n = self.exprs.len();
        for i in 0..n
            invariant
                n == self.exprs.len(),
                forall|k: int| 0 <= k < self@.len() ==> spec_can_offset(
                    #[trigger] self@[k],
                    offset as int,
                ),
                target == self@.map_values(|e: SpecExpr| spec_offset_expr(e, offset as int)),
                v.deep_view() =~= target.take(i as int),
        {
            proof {
                lemma_vec_deep_view(self.exprs);
                assert(spec_can_offset(self@[i as int], offset as int));
            }
            let ghost prev = v.deep_view();
            let ghost oldv = v;
            let x = self.exprs[i].with_offset(offset);
            v.push(x);
            proof {
                lemma_vec_deep_view(oldv);
                lemma_vec_deep_view(v);
                assert(target.len() == self@.len());
                assert(target[i as int] == spec_offset_expr(self@[i as int], offset as int));
                assert(x@ == target[i as int]);
                assert(v.deep_view() =~= prev.push(target[i as int]));
                assert(v.deep_view() =~= target.take(i + 1));
            }
        }
        proof {
            assert(v.deep_view() =~= target);
        }
        Self::new(v)
    }
}

impl Clone for EquivalenceClass {
    /// Deep copy with the same members.
    fn clone(&self) -> (r: Self)
        ensures
            r@ == self@,
    {
        let mut v: Vec<Expr> = Vec::new();
        let n = self.exprs.len();
        for i in 0..n
            invariant
                n == self.exprs.len(),
                v.deep_view() =~= self@.take(i as int),
        {
            proof {
                lemma_vec_deep_view(self.exprs);
            }
            let ghost prev = v.deep_view();
            let ghost oldv = v;
            v.push(self.exprs[i].clone());
            proof {
                lemma_vec_deep_view(oldv);
                lemma_vec_deep_view(v);
                assert(v.deep_view() =~= prev.push(self@[i as int]));
                assert(v.deep_view() =~= self@.take(i + 1));
            }
        }
        proof {
            assert(v.deep_view() =~= self@);
        }
        Self { exprs: v }
    }
}

impl PartialEq for EquivalenceClass {
    /// Two classes are equal when they contain the same member sets,
    /// disregarding order.
    fn eq(&self, other: &Self) -> (r: bool) {
        let n = self.exprs.len();
        for i in 0..n
            invariant
                n == self.exprs.len(),
                forall|j: int| 0 <= j < i ==> other@.contains(#[trigger] self@[j]),
        {
            if !other.contains(&self.exprs[i]) {
                proof {
                    assert(self@.contains(self@[i as int]));
                    assert(self@.to_set().contains(self@[i as int]));
                    assert(!other@.to_set().contains(self@[i as int]));
                }
                return false;
            }
        }
        let m = other.exprs.len();
        for i in 0..m
            invariant
                m == other.exprs.len(),
                forall|j: int| 0 <= j < self@.len() ==> other@.contains(#[trigger] self@[j]),
                forall|j: int| 0 <= j < i ==> self@.contains(#[trigger] other@[j]),
        {
            if !self.contains(&other.exprs[i]) {
                proof {
                    assert(other@.contains(other@[i as int]));
                    assert(other@.to_set().contains(other@[i as int]));
                    assert(!self@.to_set().contains(other@[i as int]));
                }
                return false;
            }
        }
        proof {
            assert forall|e: SpecExpr| self@.to_set().contains(e)
                implies other@.to_set().contains(e) by {
                let j = choose|j: int| 0 <= j < self@.len() && self@[j] == e;
                assert(other@.contains(self@[j]));
            }
            assert forall|e: SpecExpr| other@.to_set().contains(e)
                implies self@.to_set().contains(e) by {
                let j = choose|j: int| 0 <= j < other@.len() && other@[j] == e;
                assert(self@.contains(other@[j]));
            }
            assert(self@.to_set() =~= other@.to_set());
        }
        true
    }
}

impl vstd::std_specs::cmp::PartialEqSpecImpl for EquivalenceClass {
    open spec fn obeys_eq_spec() -> bool {
        true
    }

    open spec fn eq_spec(&self, other: &Self) -> bool {
        self@.to_set() == other@.to_set()
    }
}

/// Whether a constant expression's value is uniform or varies across
/// partitions of a relation.
#[derive(Debug, PartialEq)]
pub enum AcrossPartitions {
    /// The constant may have a different value in each partition.
    Heterogeneous,
    /// The constant has the same value in every partition; the value itself
    /// may be known (`Some`) or unknown (`None`).
    Uniform(Option<ScalarVal>),
}

/// Mathematical model of [`AcrossPartitions`].
pub enum SpecAcrossPartitions {
    Heterogeneous,
    Uniform(Option<SpecScalar>),
}

impl View for AcrossPartitions {
    type V = SpecAcrossPartitions;

    open spec fn view(&self) -> SpecAcrossPartitions {
        match self {
            AcrossPartitions::Heterogeneous => SpecAcrossPartitions::Heterogeneous,
            AcrossPartitions::Uniform(v) => SpecAcrossPartitions::Uniform(
                match v {
                    Some(s) => Some(s@),
                    None => None,
                },
            ),
        }
    }
}

impl Clone for AcrossPartitions {
    /// Deep copy with the same mathematical value.
    fn clone(&self) -> (r: Self)
        ensures
            r@ == self@,
    {
        match self {
            AcrossPartitions::Heterogeneous => AcrossPartitions::Heterogeneous,
            AcrossPartitions::Uniform(v) => AcrossPartitions::Uniform(
                match v {
                    Some(s) => Some(s.clone()),
                    None => None,
                },
            ),
        }
    }
}

impl Default for AcrossPartitions {
    /// By default, a constant is not assumed uniform across partitions.
    fn default() -> (r: Self)
        ensures
            r@ == SpecAcrossPartitions::Heterogeneous,
    {
        AcrossPartitions::Heterogeneous
    }
}

/// Mathematical model of a [`ConstExpr`].
pub struct SpecConstExpr {
    pub expr: SpecExpr,
    pub across_partitions: SpecAcrossPartitions,
}

/// An expression known to be constant within a relation (for example from an
/// equality filter `a = 5`), tagged with whether its value is uniform across
/// partitions.  Immutable once built; builders return new values.
#[derive(Debug, PartialEq)]
pub struct ConstExpr {
    expr: Expr,
    across_partitions: AcrossPartitions,
}

impl View for ConstExpr {
    type V = SpecConstExpr;

    closed spec fn view(&self) -> SpecConstExpr {
        SpecConstExpr { expr: self.expr@, across_partitions: self.across_partitions@ }
    }
}

impl DeepView for ConstExpr {
    type V = SpecConstExpr;

    closed spec fn deep_view(&self) -> SpecConstExpr {
        SpecConstExpr { expr: self.expr@, across_partitions: self.across_partitions@ }
    }
}

/// A record's deep view and view agree.
pub broadcast proof fn lemma_const_expr_deep_view(c: ConstExpr)
    ensures
        #[trigger] c.deep_view() == c@,
{
}

impl Clone for ConstExpr {
    /// Deep copy with the same mathematical value.
    fn clone(&self) -> (r: Self)
        ensures
            r@ == self@,
    {
        ConstExpr { expr: self.expr.clone(), across_partitions: self.across_partitions.clone() }
    }
}

impl ConstExpr {
    /// Wraps an expression known to be constant; by default it is not
    /// assumed uniform across partitions.
    pub fn new(expr: Expr) -> (r: Self)
        ensures
            r@.expr == expr@,
            r@.across_partitions == SpecAcrossPartitions::Heterogeneous,
    {
        Self { expr, across_partitions: AcrossPartitions::default() }
    }

    /// Builder setting the cross-partition uniformity tag.
    pub fn with_across_partitions(self, across_partitions: AcrossPartitions) -> (r: Self)
        ensures
            r@.expr == self@.expr,
            r@.across_partitions == across_partitions@,
    {
        Self { expr: self.expr, across_partitions }
    }

    /// The cross-partition uniformity tag.
    pub fn across_partitions(&self) -> (r: AcrossPartitions)
        ensures
            r@ == self@.across_partitions,
    {
        self.across_partitions.clone()
    }

    /// The wrapped expression.
    pub fn expr(&self) -> (r: &Expr)
        ensures
            r@ == self@.expr,
    {
        &self.expr
    }

    /// Consumes the record, handing back the wrapped expression.
    pub fn owned_expr(self) -> (r: Expr)
        ensures
            r@ == self@.expr,
    {
        self.expr
    }

    /// Applies `f` to the wrapped expression; when `f` yields a new
    /// expression, wraps it with the same uniformity tag.
    pub fn map<F: Fn(&Expr) -> Option<Expr>>(&self, f: F) -> (r: Option<Self>)
        requires
            forall|x: &Expr| x@ == self@.expr ==> #[trigger] call_requires(f, (x,)),
        ensures
            exists|x: &Expr, fr: Option<Expr>|
                {
                    &&& x@ == self@.expr
                    &&& #[trigger] call_ensures(f, (x,), fr)
                    &&& (fr is Some <==> r is Some)
                    &&& (fr is Some ==> r.unwrap()@.expr == fr.unwrap()@
                        && r.unwrap()@.across_partitions == self@.across_partitions)
                },
    {
        let maybe_expr = f(&self.expr);
        match maybe_expr {
            Some(e) => Some(
                Self { expr: e, across_partitions: self.across_partitions.clone() },
            ),
            None => None,
        }
    }

    /// Returns true when the wrapped expression equals `other` structurally.
    pub fn eq_expr(&self, other: &Expr) -> (r: bool)
        ensures
            r == (self@.expr == other@),
    {
        self.expr.eq_expr(other)
    }
}

impl From<Expr> for ConstExpr {
    /// Wraps the expression with the default (heterogeneous) uniformity
    /// tag.
    fn from(expr: Expr) -> (r: Self) {
        ConstExpr { expr, across_partitions: AcrossPartitions::Heterogeneous }
    }
}

impl vstd::std_specs::convert::FromSpecImpl<Expr> for ConstExpr {
    open spec fn obeys_from_spec() -> bool {
        true
    }

    closed spec fn from_spec(expr: Expr) -> Self {
        ConstExpr { expr, across_partitions: AcrossPartitions::Heterogeneous }
    }
}

/// Checks whether `expr` is among the expressions wrapped in `const_exprs`.
pub fn const_exprs_contains(const_exprs: &[ConstExpr], expr: &Expr) -> (r: bool)
    ensures
        r == (exists|i: int|
            0 <= i < const_exprs@.len() && (#[trigger] const_exprs@[i])@.expr == expr@),
{
    let n = const_exprs.len();
    for i in 0..n
        invariant
            n == const_exprs@.len(),
            forall|j: int| 0 <= j < i ==> (#[trigger] const_exprs@[j])@.expr != expr@,
    {
        if const_exprs[i].eq_expr(expr) {
            return true;
        }
    }
    false
}

} // verus!
