//! Equivalence groups: disjoint partitions of equivalence classes.
//!
//! A group collects the equality facts known at one point of a plan.  After
//! every mutating operation it satisfies the partition invariant: no
//! expression appears in two distinct classes, and no class has fewer than
//! two members (a singleton encodes no equivalence information).

use vstd::prelude::*;
use crate::class::EquivalenceClass;
use crate::expr::{Expr, Operator, SpecExpr, spec_can_offset, spec_offset_expr};
use crate::projection::{
    ProjectionMapping, lemma_find_source_props, spec_find_source,
};
use crate::sort::{
    SortExpr, SortRequirement, SpecSortRequirement, SpecSortExpr, collapse_reqs, spec_collapse,
    spec_req_to_sort, spec_sort_to_req, req_to_sort, sort_to_req,
};
use crate::seqs::{
    lemma_seq_absorb_disjoint, lemma_seq_absorb_props, lemma_seq_insert_props,
    lemma_vec_deep_view, seq_absorb, seq_dedup, seq_distinct, seq_insert, seq_swap_remove,
    seqs_disjoint, seqs_overlap,
};

verus! {

broadcast use crate::class::lemma_class_deep_view;

/// Every class of the partition is internally duplicate-free and carries at
/// least two members.
pub open spec fn group_classes_wf(g: Seq<Seq<SpecExpr>>) -> bool {
    forall|i: int| 0 <= i < g.len() ==> seq_distinct(#[trigger] g[i]) && g[i].len() >= 2
}

/// No expression appears in two distinct classes.
pub open spec fn group_disjoint(g: Seq<Seq<SpecExpr>>) -> bool {
    forall|i: int, j: int|
        0 <= i < g.len() && 0 <= j < g.len() && i != j ==> seqs_disjoint(
            #[trigger] g[i],
            #[trigger] g[j],
        )
}

/// The partition invariant of an equivalence group.
pub open spec fn group_wf(g: Seq<Seq<SpecExpr>>) -> bool {
    group_classes_wf(g) && group_disjoint(g)
}

/// The expression belongs to some class of the group.
pub open spec fn in_union(g: Seq<Seq<SpecExpr>>, e: SpecExpr) -> bool {
    exists|i: int| 0 <= i < g.len() && (#[trigger] g[i]).contains(e)
}

/// Some class contains both expressions: the group knows them equal.
pub open spec fn in_same_class(g: Seq<Seq<SpecExpr>>, x: SpecExpr, y: SpecExpr) -> bool {
    exists|i: int|
        0 <= i < g.len() && (#[trigger] g[i]).contains(x) && g[i].contains(y)
}

/// The first class containing `e`, if any.
pub open spec fn spec_find_class(g: Seq<Seq<SpecExpr>>, e: SpecExpr) -> Option<int>
    decreases g.len(),
{
    if g.len() == 0 {
        None
    } else if g[0].contains(e) {
        Some(0)
    } else {
        match spec_find_class(g.drop_first(), e) {
            Some(i) => Some(i + 1),
            None => None,
        }
    }
}

pub proof fn lemma_find_class_props(g: Seq<Seq<SpecExpr>>, e: SpecExpr)
    ensures
        match spec_find_class(g, e) {
            Some(i) => 0 <= i < g.len() && g[i].contains(e) && (forall|j: int|
                0 <= j < i ==> !(#[trigger] g[j]).contains(e)),
            None => forall|j: int| 0 <= j < g.len() ==> !(#[trigger] g[j]).contains(e),
        },
    decreases g.len(),
{
    if g.len() > 0 && !g[0].contains(e) {
        let t = g.drop_first();
        lemma_find_class_props(t, e);
        match spec_find_class(t, e) {
            Some(i) => {
                assert(t[i] == g[i + 1]);
                assert forall|j: int| 0 <= j < i + 1 implies !(#[trigger] g[j]).contains(e) by {
                    if j > 0 {
                        assert(t[j - 1] == g[j]);
                        assert(!t[j - 1].contains(e));
                    }
                }
            },
            None => {
                assert forall|j: int| 0 <= j < g.len() implies !(#[trigger] g[j]).contains(
                    e,
                ) by {
                    if j > 0 {
                        assert(t[j - 1] == g[j]);
                        assert(!t[j - 1].contains(e));
                    }
                }
            },
        }
    }
}

/// In a disjoint group, the class found for `e` is the only one holding it.
pub proof fn lemma_find_class_unique(g: Seq<Seq<SpecExpr>>, e: SpecExpr, i: int)
    requires
        group_disjoint(g),
        0 <= i < g.len(),
        g[i].contains(e),
    ensures
        spec_find_class(g, e) == Some(i),
{
    lemma_find_class_props(g, e);
    match spec_find_class(g, e) {
        Some(j) => {
            if i != j {
                assert(seqs_disjoint(g[i], g[j]));
            }
        },
        None => {},
    }
}

/// The first index whose class contains `e` is what the search finds.
pub proof fn lemma_find_class_first(g: Seq<Seq<SpecExpr>>, e: SpecExpr, i: int)
    requires
        0 <= i < g.len(),
        g[i].contains(e),
        forall|j: int| 0 <= j < i ==> !(#[trigger] g[j]).contains(e),
    ensures
        spec_find_class(g, e) == Some(i),
{
    lemma_find_class_props(g, e);
    match spec_find_class(g, e) {
        Some(j) => {
            if j < i {
                assert(!g[j].contains(e));
            } else if j > i {
                assert(!g[i].contains(e));
            }
        },
        None => {
            assert(!g[i].contains(e));
        },
    }
}

/// The group after recording the equality `l == r`.
///
/// When both sides already live in distinct classes, the later-indexed class
/// is swap-removed and absorbed into the earlier one; when one side is
/// known, the other joins its class; when neither is known and the two
/// differ, a fresh two-member class is appended.  Equal sides that are both
/// unknown add no information and leave the group unchanged.
pub open spec fn spec_add_equal(g: Seq<Seq<SpecExpr>>, l: SpecExpr, r: SpecExpr) -> Seq<
    Seq<SpecExpr>,
> {
    match (spec_find_class(g, l), spec_find_class(g, r)) {
        (Some(f), Some(s)) => if f == s {
            g
        } else {
            let lo = if f < s {
                f
            } else {
                s
            };
            let hi = if f < s {
                s
            } else {
                f
            };
            seq_swap_remove(g.update(lo, g[lo] + g[hi]), hi)
        },
        (Some(f), None) => g.update(f, g[f].push(r)),
        (None, Some(s)) => g.update(s, g[s].push(l)),
        (None, None) => if l == r {
            g
        } else {
            g.push(seq![l, r])
        },
    }
}

/// Recording an equality preserves the partition invariant.
pub proof fn lemma_spec_add_equal_wf(g: Seq<Seq<SpecExpr>>, l: SpecExpr, r: SpecExpr)
    requires
        group_wf(g),
    ensures
        group_wf(spec_add_equal(g, l, r)),
{
    lemma_find_class_props(g, l);
    lemma_find_class_props(g, r);
    let g2 = spec_add_equal(g, l, r);
    match (spec_find_class(g, l), spec_find_class(g, r)) {
        (Some(f), Some(s)) => {
            if f != s {
                let lo = if f < s {
                    f
                } else {
                    s
                };
                let hi = if f < s {
                    s
                } else {
                    f
                };
                let merged = g[lo] + g[hi];
                let n = g.len();
                assert(seq_distinct(merged)) by {
                    assert forall|i: int, j: int| 0 <= i < j < merged.len() implies merged[i]
                        != merged[j] by {
                        if i < g[lo].len() && j >= g[lo].len() {
                            assert(merged[i] == g[lo][i]);
                            assert(merged[j] == g[hi][j - g[lo].len()]);
                            assert(g[lo].contains(merged[i]));
                            assert(g[hi].contains(merged[j]));
                            assert(seqs_disjoint(g[lo], g[hi]));
                        }
                    }
                }
                assert forall|e: SpecExpr| #[trigger] merged.contains(e) implies g[lo].contains(
                    e,
                ) || g[hi].contains(e) by {
                    let i = choose|i: int| 0 <= i < merged.len() && merged[i] == e;
                    if i < g[lo].len() {
                        assert(g[lo][i] == e);
                    } else {
                        assert(g[hi][i - g[lo].len()] == e);
                    }
                }
                // Every position of the result holds either the merged class
                // or an untouched original class.
                assert(g2.len() == n - 1);
                assert forall|k: int| 0 <= k < n - 1 && k != lo implies exists|m: int|
                    0 <= m < n && m != lo && m != hi && #[trigger] g2[k] == g[m] by {
                    if k == hi {
                        assert(g2[k] == g[n - 1]);
                        assert(hi != n - 1);
                    } else {
                        assert(g2[k] == g[k]);
                    }
                }
                assert(g2[lo] == merged);
                assert(group_classes_wf(g2)) by {
                    assert forall|k: int| 0 <= k < g2.len() implies seq_distinct(#[trigger] g2[k])
                        && g2[k].len() >= 2 by {
                        if k != lo {
                            let m = choose|m: int|
                                0 <= m < n && m != lo && m != hi && g2[k] == g[m];
                            assert(seq_distinct(g[m]) && g[m].len() >= 2);
                        }
                    }
                }
                assert(group_disjoint(g2)) by {
                    assert forall|k1: int, k2: int|
                        0 <= k1 < g2.len() && 0 <= k2 < g2.len() && k1 != k2 implies seqs_disjoint(
                        #[trigger] g2[k1],
                        #[trigger] g2[k2],
                    ) by {
                        assert forall|e: SpecExpr| #[trigger] g2[k1].contains(e) implies !g2[
                            k2
                        ].contains(e) by {
                            if k1 == lo {
                                let m2 = choose|m: int|
                                    0 <= m < n && m != lo && m != hi && g2[k2] == g[m];
                                assert(g[lo].contains(e) || g[hi].contains(e));
                                assert(seqs_disjoint(g[lo], g[m2]));
                                assert(seqs_disjoint(g[hi], g[m2]));
                            } else if k2 == lo {
                                let m1 = choose|m: int|
                                    0 <= m < n && m != lo && m != hi && g2[k1] == g[m];
                                if g2[k2].contains(e) {
                                    assert(g[lo].contains(e) || g[hi].contains(e));
                                    assert(seqs_disjoint(g[m1], g[lo]));
                                    assert(seqs_disjoint(g[m1], g[hi]));
                                }
                            } else {
                                let m1 = choose|m: int|
                                    0 <= m < n && m != lo && m != hi && g2[k1] == g[m];
                                let m2 = choose|m: int|
                                    0 <= m < n && m != lo && m != hi && g2[k2] == g[m];
                                assert(m1 != m2) by {
                                    if k1 == hi {
                                        assert(g2[k1] == g[n - 1]);
                                    }
                                }
                                assert(seqs_disjoint(g[m1], g[m2]));
                            }
                        }
                    }
                }
            }
        },
        (Some(f), None) => {
            let c2 = g[f].push(r);
            assert(!g[f].contains(r));
            lemma_seq_insert_props(g[f], r);
            assert(c2 == seq_insert(g[f], r));
            assert forall|e: SpecExpr| #[trigger] c2.contains(e) implies g[f].contains(e) || e
                == r by {}
            assert(group_classes_wf(g2));
            assert forall|k1: int, k2: int|
                0 <= k1 < g2.len() && 0 <= k2 < g2.len() && k1 != k2 implies seqs_disjoint(
                #[trigger] g2[k1],
                #[trigger] g2[k2],
            ) by {
                assert forall|e: SpecExpr| #[trigger] g2[k1].contains(e) implies !g2[k2].contains(
                    e,
                ) by {
                    if k1 == f {
                        assert(g[f].contains(e) || e == r);
                        assert(seqs_disjoint(g[f], g[k2]));
                    } else if k2 == f {
                        if g2[k2].contains(e) {
                            assert(g[f].contains(e) || e == r);
                            assert(seqs_disjoint(g[k1], g[f]));
                        }
                    } else {
                        assert(seqs_disjoint(g[k1], g[k2]));
                    }
                }
            }
        },
        (None, Some(s)) => {
            let c2 = g[s].push(l);
            assert(!g[s].contains(l));
            lemma_seq_insert_props(g[s], l);
            assert(c2 == seq_insert(g[s], l));
            assert forall|e: SpecExpr| #[trigger] c2.contains(e) implies g[s].contains(e) || e
                == l by {}
            assert(group_classes_wf(g2));
            assert forall|k1: int, k2: int|
                0 <= k1 < g2.len() && 0 <= k2 < g2.len() && k1 != k2 implies seqs_disjoint(
                #[trigger] g2[k1],
                #[trigger] g2[k2],
            ) by {
                assert forall|e: SpecExpr| #[trigger] g2[k1].contains(e) implies !g2[k2].contains(
                    e,
                ) by {
                    if k1 == s {
                        assert(g[s].contains(e) || e == l);
                        assert(seqs_disjoint(g[s], g[k2]));
                    } else if k2 == s {
                        if g2[k2].contains(e) {
                            assert(g[s].contains(e) || e == l);
                            assert(seqs_disjoint(g[k1], g[s]));
                        }
                    } else {
                        assert(seqs_disjoint(g[k1], g[k2]));
                    }
                }
            }
        },
        (None, None) => {
            if l != r {
                let c = seq![l, r];
                assert(c[0] == l && c[1] == r);
                assert(seq_distinct(c));
                assert forall|e: SpecExpr| #[trigger] c.contains(e) implies e == l || e == r by {
                    let i = choose|i: int| 0 <= i < c.len() && c[i] == e;
                }
                assert(group_classes_wf(g2)) by {
                    assert forall|k: int| 0 <= k < g2.len() implies seq_distinct(#[trigger] g2[k])
                        && g2[k].len() >= 2 by {
                        if k < g.len() {
                            assert(g2[k] == g[k]);
                        } else {
                            assert(g2[k] == c);
                        }
                    }
                }
                assert forall|k1: int, k2: int|
                    0 <= k1 < g2.len() && 0 <= k2 < g2.len() && k1 != k2 implies seqs_disjoint(
                    #[trigger] g2[k1],
                    #[trigger] g2[k2],
                ) by {
                    assert forall|e: SpecExpr| #[trigger] g2[k1].contains(e) implies !g2[
                        k2
                    ].contains(e) by {
                        if k1 == g.len() {
                            assert(g2[k1] == c);
                            assert(e == l || e == r);
                            assert(g2[k2] == g[k2]);
                        } else if k2 == g.len() {
                            assert(g2[k1] == g[k1]);
                            if g2[k2].contains(e) {
                                assert(e == l || e == r);
                            }
                        } else {
                            assert(g2[k1] == g[k1] && g2[k2] == g[k2]);
                            assert(seqs_disjoint(g[k1], g[k2]));
                        }
                    }
                }
            }
        },
    }
}

/// The expression rewritten toward canonical representatives, top-down:
/// a node that belongs to a class is replaced by that class's first-inserted
/// member, and its children are then left alone; an unmatched node keeps its
/// kind and has its children normalized.
pub open spec fn spec_normalize(g: Seq<Seq<SpecExpr>>, e: SpecExpr) -> SpecExpr
    decreases e,
{
    match spec_find_class(g, e) {
        Some(i) => g[i][0],
        None => match e {
            SpecExpr::Binary { op, left, right } => SpecExpr::Binary {
                op,
                left: Box::new(spec_normalize(g, *left)),
                right: Box::new(spec_normalize(g, *right)),
            },
            _ => e,
        },
    }
}

/// A chain of classes of `g` witnessing that `x` and `y` are linked by
/// overlapping classes: consecutive chain members share an element, the
/// first holds `x` and the last holds `y`.
pub open spec fn is_chain(
    g: Seq<Seq<SpecExpr>>,
    ch: Seq<Seq<SpecExpr>>,
    x: SpecExpr,
    y: SpecExpr,
) -> bool {
    &&& ch.len() > 0
    &&& forall|k: int| 0 <= k < ch.len() ==> g.contains(#[trigger] ch[k])
    &&& ch[0].contains(x)
    &&& ch[ch.len() - 1].contains(y)
    &&& forall|k: int| 0 <= k < ch.len() - 1 ==> seqs_overlap(#[trigger] ch[k], ch[k + 1])
}

/// `x` and `y` lie in one connected component of the "shares a member"
/// relation over the classes of `g`.
pub open spec fn connected(g: Seq<Seq<SpecExpr>>, x: SpecExpr, y: SpecExpr) -> bool {
    exists|ch: Seq<Seq<SpecExpr>>| is_chain(g, ch, x, y)
}

/// Two members of one class are connected.
pub proof fn lemma_same_class_connected(g: Seq<Seq<SpecExpr>>, x: SpecExpr, y: SpecExpr)
    requires
        in_same_class(g, x, y),
    ensures
        connected(g, x, y),
{
    let i = choose|i: int| 0 <= i < g.len() && (#[trigger] g[i]).contains(x) && g[i].contains(y);
    let ch = seq![g[i]];
    assert(ch[0] == g[i]);
    assert(is_chain(g, ch, x, y));
}

/// Connectivity is transitive: two chains concatenate at their shared
/// endpoint.
pub proof fn lemma_connected_trans(g: Seq<Seq<SpecExpr>>, x: SpecExpr, y: SpecExpr, z: SpecExpr)
    requires
        connected(g, x, y),
        connected(g, y, z),
    ensures
        connected(g, x, z),
{
    let ch1 = choose|ch: Seq<Seq<SpecExpr>>| is_chain(g, ch, x, y);
    let ch2 = choose|ch: Seq<Seq<SpecExpr>>| is_chain(g, ch, y, z);
    let ch = ch1 + ch2;
    assert forall|k: int| 0 <= k < ch.len() implies g.contains(#[trigger] ch[k]) by {
        if k < ch1.len() {
            assert(ch[k] == ch1[k]);
        } else {
            assert(ch[k] == ch2[k - ch1.len()]);
        }
    }
    assert(ch[0] == ch1[0]);
    assert(ch[ch.len() - 1] == ch2[ch2.len() - 1]);
    assert forall|k: int| 0 <= k < ch.len() - 1 implies seqs_overlap(
        #[trigger] ch[k],
        ch[k + 1],
    ) by {
        if k < ch1.len() - 1 {
            assert(ch[k] == ch1[k] && ch[k + 1] == ch1[k + 1]);
        } else if k == ch1.len() - 1 {
            assert(ch[k] == ch1[ch1.len() - 1] && ch[k + 1] == ch2[0]);
            assert(ch1[ch1.len() - 1].contains(y) && ch2[0].contains(y));
        } else {
            assert(ch[k] == ch2[k - ch1.len()] && ch[k + 1] == ch2[k - ch1.len() + 1]);
        }
    }
    assert(is_chain(g, ch, x, z));
}

/// Both endpoints of a connection lie in the union of the group.
pub proof fn lemma_connected_in_union(g: Seq<Seq<SpecExpr>>, x: SpecExpr, y: SpecExpr)
    requires
        connected(g, x, y),
    ensures
        in_union(g, x),
        in_union(g, y),
{
    let ch = choose|ch: Seq<Seq<SpecExpr>>| is_chain(g, ch, x, y);
    assert(g.contains(ch[0]));
    assert(g.contains(ch[ch.len() - 1]));
    let i = choose|i: int| 0 <= i < g.len() && g[i] == ch[0];
    let j = choose|j: int| 0 <= j < g.len() && g[j] == ch[ch.len() - 1];
    assert(g[i].contains(x));
    assert(g[j].contains(y));
}

/// Connectivity is symmetric: the reversed chain connects the endpoints
/// the other way round.
pub proof fn lemma_connected_sym(g: Seq<Seq<SpecExpr>>, x: SpecExpr, y: SpecExpr)
    requires
        connected(g, x, y),
    ensures
        connected(g, y, x),
{
    let ch = choose|ch: Seq<Seq<SpecExpr>>| is_chain(g, ch, x, y);
    let n = ch.len();
    let rev = Seq::new(n, |i: int| ch[n - 1 - i]);
    assert forall|k: int| 0 <= k < rev.len() implies g.contains(#[trigger] rev[k]) by {
        assert(rev[k] == ch[n - 1 - k]);
    }
    assert(rev[0] == ch[n - 1]);
    assert(rev[n - 1] == ch[0]);
    assert forall|k: int| 0 <= k < rev.len() - 1 implies seqs_overlap(
        #[trigger] rev[k],
        rev[k + 1],
    ) by {
        assert(rev[k] == ch[n - 1 - k]);
        assert(rev[k + 1] == ch[n - 2 - k]);
        assert(seqs_overlap(ch[n - 2 - k], ch[n - 1 - k]));
        let e = choose|e: SpecExpr|
            #[trigger] ch[n - 2 - k].contains(e) && ch[n - 1 - k].contains(e);
        assert(rev[k].contains(e) && rev[k + 1].contains(e));
    }
    assert(is_chain(g, rev, y, x));
}

/// A member of the union is connected to itself.
pub proof fn lemma_union_connected_refl(g: Seq<Seq<SpecExpr>>, x: SpecExpr)
    requires
        in_union(g, x),
    ensures
        connected(g, x, x),
{
    let i = choose|i: int| 0 <= i < g.len() && (#[trigger] g[i]).contains(x);
    let ch = seq![g[i]];
    assert(ch[0] == g[i]);
    assert(is_chain(g, ch, x, x));
}

/// A chain in a group whose classes all appear in `h` is a chain in `h`.
pub proof fn lemma_connected_weaken(
    g: Seq<Seq<SpecExpr>>,
    h: Seq<Seq<SpecExpr>>,
    x: SpecExpr,
    y: SpecExpr,
)
    requires
        connected(g, x, y),
        forall|c: Seq<SpecExpr>| #[trigger] g.contains(c) ==> h.contains(c),
    ensures
        connected(h, x, y),
{
    let ch = choose|ch: Seq<Seq<SpecExpr>>| is_chain(g, ch, x, y);
    assert(is_chain(h, ch, x, y));
}

/// In a group whose same-class pairs are all connected in `orig`, every
/// chain-connected pair is connected in `orig` as well.
pub proof fn lemma_chain_lift(
    g: Seq<Seq<SpecExpr>>,
    orig: Seq<Seq<SpecExpr>>,
    ch: Seq<Seq<SpecExpr>>,
    x: SpecExpr,
    y: SpecExpr,
)
    requires
        is_chain(g, ch, x, y),
        forall|a: SpecExpr, b: SpecExpr| in_same_class(g, a, b) ==> #[trigger] connected(
            orig,
            a,
            b,
        ),
    ensures
        connected(orig, x, y),
    decreases ch.len(),
{
    let i = choose|i: int| 0 <= i < g.len() && g[i] == ch[0];
    assert(g.contains(ch[0]));
    assert(0 <= i < g.len() && g[i] == ch[0]);
    if ch.len() == 1 {
        assert(g[i].contains(x) && g[i].contains(y));
        assert(in_same_class(g, x, y));
    } else {
        assert(seqs_overlap(ch[0], ch[1]));
        let w = choose|w: SpecExpr| #[trigger] ch[0].contains(w) && ch[1].contains(w);
        assert(g[i].contains(x) && g[i].contains(w));
        assert(in_same_class(g, x, w));
        let ch2 = ch.drop_first();
        assert forall|k: int| 0 <= k < ch2.len() implies g.contains(#[trigger] ch2[k]) by {
            assert(ch2[k] == ch[k + 1]);
        }
        assert forall|k: int| 0 <= k < ch2.len() - 1 implies seqs_overlap(
            #[trigger] ch2[k],
            ch2[k + 1],
        ) by {
            assert(ch2[k] == ch[k + 1] && ch2[k + 1] == ch[k + 2]);
        }
        assert(ch2[0] == ch[1]);
        assert(ch2[ch2.len() - 1] == ch[ch.len() - 1]);
        assert(is_chain(g, ch2, w, y));
        lemma_chain_lift(g, orig, ch2, w, y);
        lemma_connected_trans(orig, x, w, y);
    }
}

/// A chain lowers into a disjoint partition that keeps pairs together.
proof fn lemma_chain_closure(
    g: Seq<Seq<SpecExpr>>,
    h: Seq<Seq<SpecExpr>>,
    ch: Seq<Seq<SpecExpr>>,
    x: SpecExpr,
    y: SpecExpr,
)
    requires
        is_chain(g, ch, x, y),
        group_disjoint(h),
        forall|a: SpecExpr, b: SpecExpr| #[trigger] in_same_class(g, a, b) ==> in_same_class(
            h,
            a,
            b,
        ),
    ensures
        in_same_class(h, x, y),
    decreases ch.len(),
{
    assert(g.contains(ch[0]));
    let i = choose|i: int| 0 <= i < g.len() && g[i] == ch[0];
    if ch.len() == 1 {
        assert(g[i].contains(x) && g[i].contains(y));
        assert(in_same_class(g, x, y));
    } else {
        assert(seqs_overlap(ch[0], ch[1]));
        let w = choose|w: SpecExpr| #[trigger] ch[0].contains(w) && ch[1].contains(w);
        assert(g[i].contains(x) && g[i].contains(w));
        assert(in_same_class(g, x, w));
        let ch2 = ch.drop_first();
        assert forall|k: int| 0 <= k < ch2.len() implies g.contains(#[trigger] ch2[k]) by {
            assert(ch2[k] == ch[k + 1]);
        }
        assert forall|k: int| 0 <= k < ch2.len() - 1 implies seqs_overlap(
            #[trigger] ch2[k],
            ch2[k + 1],
        ) by {
            assert(ch2[k] == ch[k + 1] && ch2[k + 1] == ch[k + 2]);
        }
        assert(ch2[0] == ch[1]);
        assert(ch2[ch2.len() - 1] == ch[ch.len() - 1]);
        assert(is_chain(g, ch2, w, y));
        lemma_chain_closure(g, h, ch2, w, y);
        // Both target classes hold `w`; a disjoint partition has only one
        // such class, so `x` and `y` are classmates.
        let p = choose|p: int|
            0 <= p < h.len() && (#[trigger] h[p]).contains(x) && h[p].contains(w);
        let q = choose|q: int|
            0 <= q < h.len() && (#[trigger] h[q]).contains(w) && h[q].contains(y);
        if p != q {
            assert(seqs_disjoint(h[p], h[q]));
        }
        assert(h[p].contains(x) && h[p].contains(y));
    }
}

/// Bridging closure: once the classes of a group form a disjoint partition
/// that keeps every previously known pair together (as `bridge_classes`
/// ensures), any two expressions linked by a chain of overlapping input
/// classes are classmates in it.
pub proof fn lemma_bridged_closure(g: Seq<Seq<SpecExpr>>, h: Seq<Seq<SpecExpr>>)
    requires
        group_disjoint(h),
        forall|a: SpecExpr, b: SpecExpr| #[trigger] in_same_class(g, a, b) ==> in_same_class(
            h,
            a,
            b,
        ),
    ensures
        forall|x: SpecExpr, y: SpecExpr| #[trigger] connected(g, x, y) ==> in_same_class(h, x, y),
{
    assert forall|x: SpecExpr, y: SpecExpr| #[trigger] connected(g, x, y)
        implies in_same_class(h, x, y) by {
        let ch = choose|ch: Seq<Seq<SpecExpr>>| is_chain(g, ch, x, y);
        lemma_chain_closure(g, h, ch, x, y);
    }
}

/// One merge step of bridging: the class at `j` is swap-removed and absorbed
/// into the class at `i`.  The step keeps every known pair together, keeps
/// the union of members, and every pair it newly joins was already connected
/// through the overlap.
pub proof fn lemma_bridge_merge_step(
    prev: Seq<Seq<SpecExpr>>,
    cur: Seq<Seq<SpecExpr>>,
    orig: Seq<Seq<SpecExpr>>,
    i: int,
    j: int,
)
    requires
        0 <= i < j < prev.len(),
        cur == seq_swap_remove(prev, j).update(i, seq_absorb(prev[i], prev[j])),
        seqs_overlap(prev[i], prev[j]),
        forall|k: int| 0 <= k < prev.len() ==> seq_distinct(#[trigger] prev[k]),
        forall|a: SpecExpr, b: SpecExpr| in_same_class(prev, a, b) ==> #[trigger] connected(
            orig,
            a,
            b,
        ),
    ensures
        cur.len() == prev.len() - 1,
        cur[i] == seq_absorb(prev[i], prev[j]),
        cur[i].len() >= prev[i].len(),
        cur[i].len() == prev[i].len() ==> cur[i] == prev[i],
        forall|k: int| 0 <= k < cur.len() ==> seq_distinct(#[trigger] cur[k]),
        forall|k: int|
            0 <= k < cur.len() && k != i ==> exists|m: int|
                0 <= m < prev.len() && m != i && m != j && #[trigger] cur[k] == prev[m],
        forall|e: SpecExpr| #[trigger] cur[i].contains(e) <==> (prev[i].contains(e)
            || prev[j].contains(e)),
        forall|a: SpecExpr, b: SpecExpr| #[trigger] in_same_class(prev, a, b) ==> in_same_class(
            cur,
            a,
            b,
        ),
        forall|a: SpecExpr, b: SpecExpr| #[trigger] in_same_class(cur, a, b) ==> connected(
            orig,
            a,
            b,
        ),
        forall|e: SpecExpr| #[trigger] in_union(cur, e) <==> in_union(prev, e),
        (forall|k: int| 0 <= k < prev.len() ==> (#[trigger] prev[k]).len() >= 2) ==> (forall|
            k: int,
        | 0 <= k < cur.len() ==> (#[trigger] cur[k]).len() >= 2),
    decreases prev.len(),
{
    let merged = seq_absorb(prev[i], prev[j]);
    lemma_seq_absorb_props(prev[i], prev[j]);
    let n = prev.len();
    assert(cur.len() == n - 1);
    assert(cur[i] == merged);
    assert forall|k: int| 0 <= k < cur.len() && k != i implies exists|m: int|
        0 <= m < prev.len() && m != i && m != j && #[trigger] cur[k] == prev[m] by {
        if k == j {
            assert(j < n - 1);
            assert(cur[k] == prev[n - 1]);
        } else {
            assert(cur[k] == prev[k]);
        }
    }
    assert forall|k: int| 0 <= k < cur.len() implies seq_distinct(#[trigger] cur[k]) by {
        if k != i {
            let m = choose|m: int| 0 <= m < prev.len() && m != i && m != j && cur[k] == prev[m];
        }
    }
    // Pairs stay together.
    assert forall|a: SpecExpr, b: SpecExpr| #[trigger] in_same_class(prev, a, b)
        implies in_same_class(cur, a, b) by {
        let p = choose|p: int|
            0 <= p < prev.len() && (#[trigger] prev[p]).contains(a) && prev[p].contains(b);
        if p == i || p == j {
            assert(cur[i].contains(a) && cur[i].contains(b));
        } else if p == n - 1 && j < n - 1 {
            assert(cur[j] == prev[n - 1]);
            assert(cur[j].contains(a) && cur[j].contains(b));
        } else {
            assert(cur[p] == prev[p]);
            assert(cur[p].contains(a) && cur[p].contains(b));
        }
    }
    // New pairs were already connected through the overlap witness.
    let w = choose|w: SpecExpr| #[trigger] prev[i].contains(w) && prev[j].contains(w);
    assert forall|a: SpecExpr, b: SpecExpr| #[trigger] in_same_class(cur, a, b)
        implies connected(orig, a, b) by {
        let q = choose|q: int|
            0 <= q < cur.len() && (#[trigger] cur[q]).contains(a) && cur[q].contains(b);
        if q == i {
            assert(prev[i].contains(a) || prev[j].contains(a));
            assert(prev[i].contains(b) || prev[j].contains(b));
            assert(connected(orig, a, w)) by {
                if prev[i].contains(a) {
                    assert(in_same_class(prev, a, w));
                } else {
                    assert(in_same_class(prev, a, w));
                }
            }
            assert(connected(orig, w, b)) by {
                if prev[i].contains(b) {
                    assert(in_same_class(prev, w, b));
                } else {
                    assert(in_same_class(prev, w, b));
                }
            }
            lemma_connected_trans(orig, a, w, b);
        } else {
            let m = choose|m: int| 0 <= m < prev.len() && m != i && m != j && cur[q] == prev[m];
            assert(prev[m].contains(a) && prev[m].contains(b));
            assert(in_same_class(prev, a, b));
        }
    }
    // The union of members is untouched.
    assert forall|e: SpecExpr| #[trigger] in_union(cur, e) implies in_union(prev, e) by {
        let q = choose|q: int| 0 <= q < cur.len() && (#[trigger] cur[q]).contains(e);
        if q == i {
            assert(prev[i].contains(e) || prev[j].contains(e));
        } else {
            let m = choose|m: int| 0 <= m < prev.len() && m != i && m != j && cur[q] == prev[m];
            assert(prev[m].contains(e));
        }
    }
    assert forall|e: SpecExpr| in_union(prev, e) implies #[trigger] in_union(cur, e) by {
        let p = choose|p: int| 0 <= p < prev.len() && (#[trigger] prev[p]).contains(e);
        if p == i || p == j {
            assert(cur[i].contains(e));
        } else if p == n - 1 && j < n - 1 {
            assert(cur[j] == prev[n - 1]);
            assert(cur[j].contains(e));
        } else {
            assert(cur[p] == prev[p]);
            assert(cur[p].contains(e));
        }
    }
    if forall|k: int| 0 <= k < prev.len() ==> (#[trigger] prev[k]).len() >= 2 {
        assert forall|k: int| 0 <= k < cur.len() implies (#[trigger] cur[k]).len() >= 2 by {
            if k == i {
                assert(cur[i].len() >= prev[i].len());
            } else {
                let m = choose|m: int|
                    0 <= m < prev.len() && m != i && m != j && cur[k] == prev[m];
            }
        }
    }
}

/// Recording an equality makes the two sides classmates and keeps every
/// pair that was already together.
pub proof fn lemma_spec_add_equal_relates(g: Seq<Seq<SpecExpr>>, l: SpecExpr, r: SpecExpr)
    requires
        group_wf(g),
    ensures
        l != r ==> in_same_class(spec_add_equal(g, l, r), l, r),
        forall|x: SpecExpr, y: SpecExpr| #[trigger] in_same_class(g, x, y) ==> in_same_class(
            spec_add_equal(g, l, r),
            x,
            y,
        ),
{
    lemma_find_class_props(g, l);
    lemma_find_class_props(g, r);
    let g2 = spec_add_equal(g, l, r);
    let n = g.len();
    match (spec_find_class(g, l), spec_find_class(g, r)) {
        (Some(f), Some(s)) => {
            if f == s {
                assert(g[f].contains(l) && g[f].contains(r));
                assert(in_same_class(g2, l, r));
            } else {
                let lo = if f < s {
                    f
                } else {
                    s
                };
                let hi = if f < s {
                    s
                } else {
                    f
                };
                let merged = g[lo] + g[hi];
                assert(g2[lo] == merged);
                assert forall|e: SpecExpr|
                    g[lo].contains(e) || g[hi].contains(e) implies #[trigger] merged.contains(
                    e,
                ) by {
                    if g[lo].contains(e) {
                        let i = choose|i: int| 0 <= i < g[lo].len() && g[lo][i] == e;
                        assert(merged[i] == e);
                    } else {
                        let i = choose|i: int| 0 <= i < g[hi].len() && g[hi][i] == e;
                        assert(merged[g[lo].len() + i] == e);
                    }
                }
                assert(merged.contains(l) && merged.contains(r));
                assert(in_same_class(g2, l, r));
                assert forall|x: SpecExpr, y: SpecExpr| #[trigger] in_same_class(g, x, y)
                    implies in_same_class(g2, x, y) by {
                    let p = choose|p: int|
                        0 <= p < g.len() && (#[trigger] g[p]).contains(x) && g[p].contains(y);
                    if p == lo || p == hi {
                        assert(g2[lo].contains(x) && g2[lo].contains(y));
                    } else if p == n - 1 && hi < n - 1 {
                        assert(g2[hi] == g[n - 1]);
                        assert(g2[hi].contains(x) && g2[hi].contains(y));
                    } else {
                        assert(g2[p] == g[p]);
                        assert(g2[p].contains(x) && g2[p].contains(y));
                    }
                }
            }
        },
        (Some(f), None) => {
            lemma_seq_insert_props(g[f], r);
            assert(g2[f] == g[f].push(r));
            assert(g2[f].contains(l) && g2[f].contains(r));
            assert(in_same_class(g2, l, r));
            assert forall|x: SpecExpr, y: SpecExpr| #[trigger] in_same_class(g, x, y)
                implies in_same_class(g2, x, y) by {
                let p = choose|p: int|
                    0 <= p < g.len() && (#[trigger] g[p]).contains(x) && g[p].contains(y);
                if p == f {
                    assert(g2[f].contains(x) && g2[f].contains(y));
                } else {
                    assert(g2[p] == g[p]);
                }
            }
        },
        (None, Some(s)) => {
            lemma_seq_insert_props(g[s], l);
            assert(g2[s] == g[s].push(l));
            assert(g2[s].contains(l) && g2[s].contains(r));
            assert(in_same_class(g2, l, r));
            assert forall|x: SpecExpr, y: SpecExpr| #[trigger] in_same_class(g, x, y)
                implies in_same_class(g2, x, y) by {
                let p = choose|p: int|
                    0 <= p < g.len() && (#[trigger] g[p]).contains(x) && g[p].contains(y);
                if p == s {
                    assert(g2[s].contains(x) && g2[s].contains(y));
                } else {
                    assert(g2[p] == g[p]);
                }
            }
        },
        (None, None) => {
            if l != r {
                let c = seq![l, r];
                assert(g2[n as int] == c);
                assert(c[0] == l && c[1] == r);
                assert(c.contains(l) && c.contains(r));
                assert(in_same_class(g2, l, r));
                assert forall|x: SpecExpr, y: SpecExpr| #[trigger] in_same_class(g, x, y)
                    implies in_same_class(g2, x, y) by {
                    let p = choose|p: int|
                        0 <= p < g.len() && (#[trigger] g[p]).contains(x) && g[p].contains(y);
                    assert(g2[p] == g[p]);
                }
            }
        },
    }
}

/// Two expressions are recognized equal when they match structurally, when
/// a class holds both, or when they are compound nodes of the same kind
/// whose children are pairwise recognized equal.  The operator of a binary
/// node is a payload, not part of its kind, so it is not compared here.
pub open spec fn spec_exprs_equal(g: Seq<Seq<SpecExpr>>, l: SpecExpr, r: SpecExpr) -> bool
    decreases l,
{
    if l == r {
        true
    } else if in_same_class(g, l, r) {
        true
    } else {
        match l {
            SpecExpr::Binary { op: lop, left: ll, right: lr } => match r {
                SpecExpr::Binary { op: rop, left: rl, right: rr } => spec_exprs_equal(
                    g,
                    *ll,
                    *rl,
                ) && spec_exprs_equal(g, *lr, *rr),
                _ => false,
            },
            _ => false,
        }
    }
}

/// Shifting column indices by the same width is injective.
pub proof fn lemma_offset_expr_injective(x: SpecExpr, y: SpecExpr, d: int)
    requires
        spec_offset_expr(x, d) == spec_offset_expr(y, d),
    ensures
        x == y,
    decreases x,
{
    match x {
        SpecExpr::Column { name: nx, index: ix } => {
            match y {
                SpecExpr::Column { name: ny, index: iy } => {},
                SpecExpr::Literal { .. } => {},
                SpecExpr::Binary { .. } => {},
            }
        },
        SpecExpr::Literal { .. } => {},
        SpecExpr::Binary { op: ox, left: lx, right: rx } => {
            match y {
                SpecExpr::Binary { op: oy, left: ly, right: ry } => {
                    lemma_offset_expr_injective(*lx, *ly, d);
                    lemma_offset_expr_injective(*rx, *ry, d);
                },
                _ => {},
            }
        },
    }
}

/// Whether the class found for `src` (the first one holding it) also holds
/// `e`: the mapping source is equivalent to `e` through the group.
pub open spec fn equiv_src_matches(g: Seq<Seq<SpecExpr>>, src: SpecExpr, e: SpecExpr) -> bool {
    match spec_find_class(g, src) {
        Some(i) => g[i].contains(e),
        None => false,
    }
}

/// The first mapping pair whose source is equivalent to `e` through the
/// group, if any.
pub open spec fn spec_find_equiv_source(
    g: Seq<Seq<SpecExpr>>,
    m: Seq<(SpecExpr, SpecExpr)>,
    e: SpecExpr,
) -> Option<int>
    decreases m.len(),
{
    if m.len() == 0 {
        None
    } else if equiv_src_matches(g, m[0].0, e) {
        Some(0)
    } else {
        match spec_find_equiv_source(g, m.drop_first(), e) {
            Some(i) => Some(i + 1),
            None => None,
        }
    }
}

pub proof fn lemma_find_equiv_source_props(
    g: Seq<Seq<SpecExpr>>,
    m: Seq<(SpecExpr, SpecExpr)>,
    e: SpecExpr,
)
    ensures
        match spec_find_equiv_source(g, m, e) {
            Some(i) => 0 <= i < m.len() && equiv_src_matches(g, m[i].0, e) && (forall|j: int|
                0 <= j < i ==> !equiv_src_matches(g, (#[trigger] m[j]).0, e)),
            None => forall|j: int| 0 <= j < m.len() ==> !equiv_src_matches(
                g,
                (#[trigger] m[j]).0,
                e,
            ),
        },
    decreases m.len(),
{
    if m.len() > 0 && !equiv_src_matches(g, m[0].0, e) {
        let t = m.drop_first();
        lemma_find_equiv_source_props(g, t, e);
        match spec_find_equiv_source(g, t, e) {
            Some(i) => {
                assert(t[i] == m[i + 1]);
                assert forall|j: int|
                    0 <= j < i + 1 implies !equiv_src_matches(g, (#[trigger] m[j]).0, e) by {
                    if j > 0 {
                        assert(t[j - 1] == m[j]);
                    }
                }
            },
            None => {
                assert forall|j: int|
                    0 <= j < m.len() implies !equiv_src_matches(g, (#[trigger] m[j]).0, e) by {
                    if j > 0 {
                        assert(t[j - 1] == m[j]);
                    }
                }
            },
        }
    }
}

pub proof fn lemma_find_equiv_source_first(
    g: Seq<Seq<SpecExpr>>,
    m: Seq<(SpecExpr, SpecExpr)>,
    e: SpecExpr,
    i: int,
)
    requires
        0 <= i < m.len(),
        equiv_src_matches(g, m[i].0, e),
        forall|j: int| 0 <= j < i ==> !equiv_src_matches(g, (#[trigger] m[j]).0, e),
    ensures
        spec_find_equiv_source(g, m, e) == Some(i),
{
    lemma_find_equiv_source_props(g, m, e);
    match spec_find_equiv_source(g, m, e) {
        Some(j) => {
            if j < i {
                assert(!equiv_src_matches(g, m[j].0, e));
            } else if j > i {
                assert(!equiv_src_matches(g, m[i].0, e));
            }
        },
        None => {
            assert(!equiv_src_matches(g, m[i].0, e));
        },
    }
}

/// The projection of `e` through the mapping, consulting the equivalence
/// classes.  Three tiers, in order: an exact source match hands back its
/// target; else a source equivalent to `e` through the group hands back its
/// target; else a compound node is rebuilt from the projections of its
/// children, failing if any child fails, and a leaf fails outright.
pub open spec fn spec_project_expr(
    g: Seq<Seq<SpecExpr>>,
    m: Seq<(SpecExpr, SpecExpr)>,
    e: SpecExpr,
) -> Option<SpecExpr>
    decreases e,
{
    if spec_find_source(m, e) is Some {
        Some(m[spec_find_source(m, e).unwrap()].1)
    } else if spec_find_equiv_source(g, m, e) is Some {
        Some(m[spec_find_equiv_source(g, m, e).unwrap()].1)
    } else {
        match e {
            SpecExpr::Binary { op, left, right } => match (
                spec_project_expr(g, m, *left),
                spec_project_expr(g, m, *right),
            ) {
                (Some(a), Some(b)) => Some(
                    SpecExpr::Binary { op, left: Box::new(a), right: Box::new(b) },
                ),
                _ => None,
            },
            _ => None,
        }
    }
}

/// `e` is the successful projection of some member of the class `c`.
pub open spec fn is_projected_member(
    g: Seq<Seq<SpecExpr>>,
    m: Seq<(SpecExpr, SpecExpr)>,
    c: Seq<SpecExpr>,
    e: SpecExpr,
) -> bool {
    exists|j: int| 0 <= j < c.len() && #[trigger] spec_project_expr(g, m, c[j]) == Some(e)
}

/// `e` is one of the mapping's targets.
pub open spec fn is_mapping_target(m: Seq<(SpecExpr, SpecExpr)>, e: SpecExpr) -> bool {
    exists|k: int| 0 <= k < m.len() && (#[trigger] m[k]).1 == e
}

/// Every expression a projection may put into the result: a successful
/// projection of some class member, or a mapping target.
pub open spec fn projection_provenance(
    g: Seq<Seq<SpecExpr>>,
    m: Seq<(SpecExpr, SpecExpr)>,
    e: SpecExpr,
) -> bool {
    ||| exists|ci: int| 0 <= ci < g.len() && is_projected_member(g, m, #[trigger] g[ci], e)
    ||| is_mapping_target(m, e)
}

/// A same-class pair survives when the class list is extended on the right.
pub proof fn lemma_in_same_class_prefix(
    s: Seq<Seq<SpecExpr>>,
    t: Seq<Seq<SpecExpr>>,
    x: SpecExpr,
    y: SpecExpr,
)
    requires
        in_same_class(s, x, y),
        s.len() <= t.len(),
        forall|i: int| 0 <= i < s.len() ==> #[trigger] t[i] == s[i],
    ensures
        in_same_class(t, x, y),
{
    let i = choose|i: int| 0 <= i < s.len() && (#[trigger] s[i]).contains(x) && s[i].contains(y);
    assert(t[i].contains(x) && t[i].contains(y));
}

/// The supported join kinds.
#[derive(Debug, Clone, Copy, PartialEq, Eq, Hash, Structural)]
pub enum JoinType {
    Inner,
    Left,
    Right,
    Full,
    LeftSemi,
    LeftAnti,
    LeftMark,
    RightSemi,
    RightAnti,
}

/// The join kinds whose output schema concatenates both sides.
pub open spec fn spec_join_combines(t: JoinType) -> bool {
    t == JoinType::Inner || t == JoinType::Left || t == JoinType::Full || t == JoinType::Right
}

/// Recording an equality joins no pair that was not already linked:
/// if every known pair is connected in some reference group `h` and the two
/// sides are connected in `h`, then every pair of the updated group is
/// connected in `h` as well.
pub proof fn lemma_spec_add_equal_sound(
    g: Seq<Seq<SpecExpr>>,
    l: SpecExpr,
    r: SpecExpr,
    h: Seq<Seq<SpecExpr>>,
)
    requires
        group_wf(g),
        connected(h, l, r),
        forall|x: SpecExpr, y: SpecExpr| #[trigger] in_same_class(g, x, y) ==> connected(h, x, y),
    ensures
        forall|x: SpecExpr, y: SpecExpr| #[trigger] in_same_class(spec_add_equal(g, l, r), x, y)
            ==> connected(h, x, y),
{
    lemma_find_class_props(g, l);
    lemma_find_class_props(g, r);
    let g2 = spec_add_equal(g, l, r);
    let n = g.len();
    lemma_connected_sym(h, l, r);
    // Any expression linked (in `g`, or by identity) to `l` or to `r` is
    // `h`-connected to `l`.
    assert forall|x: SpecExpr, y: SpecExpr| #[trigger] in_same_class(g2, x, y)
        implies connected(h, x, y) by {
        let q = choose|q: int|
            0 <= q < g2.len() && (#[trigger] g2[q]).contains(x) && g2[q].contains(y);
        match (spec_find_class(g, l), spec_find_class(g, r)) {
            (Some(f), Some(s)) => {
                if f == s {
                    assert(in_same_class(g, x, y));
                } else {
                    let lo = if f < s {
                        f
                    } else {
                        s
                    };
                    let hi = if f < s {
                        s
                    } else {
                        f
                    };
                    let a_lo: SpecExpr = if f < s {
                        l
                    } else {
                        r
                    };
                    let a_hi: SpecExpr = if f < s {
                        r
                    } else {
                        l
                    };
                    assert(g[lo].contains(a_lo) && g[hi].contains(a_hi));
                    assert(connected(h, a_lo, a_hi)) by {
                        if f >= s {
                            lemma_connected_sym(h, l, r);
                        }
                    }
                    if q == lo {
                        let merged = g[lo] + g[hi];
                        assert(g2[lo] == merged);
                        assert forall|e: SpecExpr| #[trigger] merged.contains(e)
                            implies connected(h, e, a_lo) by {
                            let i = choose|i: int| 0 <= i < merged.len() && merged[i] == e;
                            if i < g[lo].len() {
                                assert(g[lo][i] == e);
                                assert(g[lo].contains(e));
                                assert(in_same_class(g, e, a_lo));
                            } else {
                                assert(g[hi][i - g[lo].len()] == e);
                                assert(g[hi].contains(e));
                                assert(in_same_class(g, e, a_hi));
                                assert(connected(h, e, a_hi));
                                lemma_connected_sym(h, a_lo, a_hi);
                                lemma_connected_trans(h, e, a_hi, a_lo);
                            }
                        }
                        assert(connected(h, x, a_lo));
                        assert(connected(h, y, a_lo));
                        lemma_connected_sym(h, y, a_lo);
                        lemma_connected_trans(h, x, a_lo, y);
                    } else {
                        let qm: int = if q == hi {
                            n - 1
                        } else {
                            q as int
                        };
                        assert(g2[q] == g[qm]);
                        assert(in_same_class(g, x, y));
                    }
                }
            },
            (Some(f), None) => {
                if q == f {
                    assert(g2[f] == g[f].push(r));
                    assert forall|e: SpecExpr| #[trigger] g2[f].contains(e) implies connected(
                        h,
                        e,
                        l,
                    ) by {
                        let i = choose|i: int| 0 <= i < g2[f].len() && g2[f][i] == e;
                        if i < g[f].len() {
                            assert(g[f][i] == e);
                            assert(g[f].contains(e));
                            assert(in_same_class(g, e, l));
                        } else {
                            assert(e == r);
                            assert(connected(h, r, l));
                        }
                    }
                    assert(connected(h, x, l));
                    assert(connected(h, y, l));
                    lemma_connected_sym(h, y, l);
                    lemma_connected_trans(h, x, l, y);
                } else {
                    assert(g2[q] == g[q]);
                    assert(in_same_class(g, x, y));
                }
            },
            (None, Some(s)) => {
                if q == s {
                    assert(g2[s] == g[s].push(l));
                    assert forall|e: SpecExpr| #[trigger] g2[s].contains(e) implies connected(
                        h,
                        e,
                        r,
                    ) by {
                        let i = choose|i: int| 0 <= i < g2[s].len() && g2[s][i] == e;
                        if i < g[s].len() {
                            assert(g[s][i] == e);
                            assert(g[s].contains(e));
                            assert(in_same_class(g, e, r));
                        } else {
                            assert(e == l);
                            assert(connected(h, l, r));
                        }
                    }
                    assert(connected(h, x, r));
                    assert(connected(h, y, r));
                    lemma_connected_sym(h, y, r);
                    lemma_connected_trans(h, x, r, y);
                } else {
                    assert(g2[q] == g[q]);
                    assert(in_same_class(g, x, y));
                }
            },
            (None, None) => {
                if l == r {
                    assert(in_same_class(g, x, y));
                } else {
                    if q == n as int {
                        let c = seq![l, r];
                        assert(g2[q] == c);
                        assert forall|e: SpecExpr| #[trigger] c.contains(e) implies e == l || e
                            == r by {
                            let i = choose|i: int| 0 <= i < c.len() && c[i] == e;
                        }
                        lemma_connected_in_union(h, l, r);
                        assert(connected(h, x, l)) by {
                            if x == l {
                                lemma_union_connected_refl(h, l);
                            } else {
                                lemma_connected_sym(h, l, r);
                            }
                        }
                        assert(connected(h, y, l)) by {
                            if y == l {
                                lemma_union_connected_refl(h, l);
                            } else {
                                lemma_connected_sym(h, l, r);
                            }
                        }
                        lemma_connected_sym(h, y, l);
                        lemma_connected_trans(h, x, l, y);
                    } else {
                        assert(g2[q] == g[q]);
                        assert(in_same_class(g, x, y));
                    }
                }
            },
        }
    }
}

/// Two classmates are recognized equal by the congruence check.
pub proof fn lemma_classmates_exprs_equal(g: Seq<Seq<SpecExpr>>, a: SpecExpr, x: SpecExpr)
    requires
        a == x || in_same_class(g, a, x),
    ensures
        spec_exprs_equal(g, a, x),
{
}

/// Structural congruence: compound expressions of the same kind built over
/// operands that are recognized equal (for example, members of the same
/// equivalence classes) are themselves recognized equal.  The operator is
/// a payload of a binary node, not part of its kind, so the two nodes'
/// operators need not agree.
pub proof fn lemma_structural_congruence(
    g: Seq<Seq<SpecExpr>>,
    op1: Operator,
    op2: Operator,
    a: SpecExpr,
    b: SpecExpr,
    x: SpecExpr,
    y: SpecExpr,
)
    requires
        spec_exprs_equal(g, a, x),
        spec_exprs_equal(g, b, y),
    ensures
        spec_exprs_equal(
            g,
            SpecExpr::Binary { op: op1, left: Box::new(a), right: Box::new(b) },
            SpecExpr::Binary { op: op2, left: Box::new(x), right: Box::new(y) },
        ),
{
}

/// Normalization canonicalizes to the first-inserted member: any member of
/// a class of a well-formed group normalizes to that class's canonical
/// (first) expression.
pub proof fn lemma_normalize_canonical(g: Seq<Seq<SpecExpr>>, c: SpecExpr, i: int)
    requires
        group_disjoint(g),
        0 <= i < g.len(),
        g[i].contains(c),
    ensures
        spec_normalize(g, c) == g[i][0],
{
    lemma_find_class_unique(g, c, i);
}

/// An expression without children that no class mentions normalizes to
/// itself.
pub proof fn lemma_normalize_unrelated(g: Seq<Seq<SpecExpr>>, b: SpecExpr)
    requires
        forall|i: int| 0 <= i < g.len() ==> !(#[trigger] g[i]).contains(b),
        b.is_leaf(),
    ensures
        spec_normalize(g, b) == b,
{
    lemma_find_class_props(g, b);
    match spec_find_class(g, b) {
        Some(i) => {
            assert(!g[i].contains(b));
        },
        None => {},
    }
}

/// Recording the same equality twice changes nothing beyond the first
/// time: after `add_equal_conditions(a, b)`, adding `a == b` again leaves
/// the group exactly as it was.
pub proof fn lemma_add_equal_conditions_idempotent(
    g: Seq<Seq<SpecExpr>>,
    l: SpecExpr,
    r: SpecExpr,
)
    requires
        group_wf(g),
    ensures
        spec_add_equal(spec_add_equal(g, l, r), l, r) == spec_add_equal(g, l, r),
{
    let g2 = spec_add_equal(g, l, r);
    lemma_spec_add_equal_wf(g, l, r);
    if l == r {
        lemma_find_class_props(g, l);
        match spec_find_class(g, l) {
            Some(f) => {
                assert(g2 == g);
                assert(spec_add_equal(g2, l, r) == g2);
            },
            None => {
                assert(g2 == g);
                assert(spec_add_equal(g2, l, r) == g2);
            },
        }
    } else {
        lemma_spec_add_equal_relates(g, l, r);
        let i = choose|i: int|
            0 <= i < g2.len() && (#[trigger] g2[i]).contains(l) && g2[i].contains(r);
        lemma_find_class_unique(g2, l, i);
        lemma_find_class_unique(g2, r, i);
        assert(spec_add_equal(g2, l, r) == g2);
    }
}

/// A collection of disjoint equivalence classes.
#[derive(Debug)]
pub struct EquivalenceGroup {
    classes: Vec<EquivalenceClass>,
}

impl View for EquivalenceGroup {
    type V = Seq<Seq<SpecExpr>>;

    closed spec fn view(&self) -> Seq<Seq<SpecExpr>> {
        self.classes.deep_view()
    }
}

impl EquivalenceGroup {
    /// The partition invariant holds.
    pub open spec fn wf(&self) -> bool {
        group_wf(self@)
    }

    /// Creates an empty equivalence group.
    pub fn empty() -> (r: Self)
        ensures
            r@ == Seq::<Seq<SpecExpr>>::empty(),
            r.wf(),
    {
        let r = Self { classes: Vec::new() };
        proof {
            assert(r@ =~= Seq::<Seq<SpecExpr>>::empty());
        }
        r
    }

    /// Returns how many equivalence classes there are in this group.
    pub fn len(&self) -> (r: usize)
        ensures
            r == self@.len(),
    {
        proof {
            lemma_vec_deep_view(self.classes);
        }
        self.classes.len()
    }

    /// Checks whether this equivalence group is empty.
    pub fn is_empty(&self) -> (r: bool)
        ensures
            r == (self@.len() == 0),
    {
        self.len() == 0
    }

    /// The classes, in order.
    pub fn iter(&self) -> (r: &Vec<EquivalenceClass>)
        ensures
            r.deep_view() == self@,
    {
        &self.classes
    }

    /// Hands back the classes of this group.
    pub fn into_inner(self) -> (r: Vec<EquivalenceClass>)
        ensures
            r.deep_view() == self@,
    {
        self.classes
    }

    /// Adds the equality `left == right` to this group, as discovered from
    /// steps like `Filter(a = b)` or `Alias(a, a as b)`.
    pub fn add_equal_conditions(&mut self, left: &Expr, right: &Expr)
        requires
            old(self).wf(),
        ensures
            final(self)@ == spec_add_equal(old(self)@, left@, right@),
            final(self).wf(),
    {
        let ghost g0 = self@;
        let mut first_class: Option<usize> = None;
        let mut second_class: Option<usize> = None;
        let n = self.classes.len();
        proof {
            lemma_vec_deep_view(self.classes);
        }
        for idx in 0..n
            invariant
                n == self.classes.len(),
                g0 == self@,
                match first_class {
                    Some(i) => 0 <= i < idx && g0[i as int].contains(left@) && (forall|j: int|
                        0 <= j < i ==> !(#[trigger] g0[j]).contains(left@)),
                    None => forall|j: int| 0 <= j < idx ==> !(#[trigger] g0[j]).contains(left@),
                },
                match second_class {
                    Some(i) => 0 <= i < idx && g0[i as int].contains(right@) && (forall|j: int|
                        0 <= j < i ==> !(#[trigger] g0[j]).contains(right@)),
                    None => forall|j: int| 0 <= j < idx ==> !(#[trigger] g0[j]).contains(right@),
                },
        {
            proof {
                lemma_vec_deep_view(self.classes);
            }
            if self.classes[idx].contains(left) && first_class.is_none() {
                first_class = Some(idx);
            }
            if self.classes[idx].contains(right) && second_class.is_none() {
                second_class = Some(idx);
            }
        }
        proof {
            lemma_find_class_props(g0, left@);
            lemma_find_class_props(g0, right@);
            match first_class {
                Some(i) => {
                    lemma_find_class_unique(g0, left@, i as int);
                },
                None => {},
            }
            match second_class {
                Some(i) => {
                    lemma_find_class_unique(g0, right@, i as int);
                },
                None => {},
            }
            lemma_spec_add_equal_wf(g0, left@, right@);
        }
        match (first_class, second_class) {
            (Some(first_idx), Some(second_idx)) => {
                if first_idx != second_idx {
                    let lo = if first_idx < second_idx {
                        first_idx
                    } else {
                        second_idx
                    };
                    let hi = if first_idx < second_idx {
                        second_idx
                    } else {
                        first_idx
                    };
                    let ghost c0 = self.classes;
                    let other_class = self.classes.swap_remove(hi);
                    let ghost c1 = self.classes;
                    proof {
                        lemma_vec_deep_view(c0);
                        lemma_vec_deep_view(c1);
                        assert(self@ =~= seq_swap_remove(g0, hi as int));
                    }
                    self.classes[lo].extend(other_class);
                    proof {
                        lemma_vec_deep_view(self.classes);
                        assert(seqs_disjoint(g0[hi as int], g0[lo as int]));
                        assert(seq_distinct(g0[hi as int]));
                        lemma_seq_absorb_disjoint(g0[lo as int], g0[hi as int]);
                        assert(self@ =~= seq_swap_remove(
                            g0.update(lo as int, g0[lo as int] + g0[hi as int]),
                            hi as int,
                        ));
                    }
                }
            },
            (Some(group_idx), None) => {
                // Right side is new, extend left side's class:
                let ghost c1 = self.classes;
                self.classes[group_idx].push(right.clone());
                proof {
                    lemma_vec_deep_view(c1);
                    lemma_vec_deep_view(self.classes);
                    lemma_seq_insert_props(g0[group_idx as int], right@);
                    assert(self@ =~= g0.update(
                        group_idx as int,
                        g0[group_idx as int].push(right@),
                    ));
                }
            },
            (None, Some(group_idx)) => {
                // Left side is new, extend right side's class:
                let ghost c1 = self.classes;
                self.classes[group_idx].push(left.clone());
                proof {
                    lemma_vec_deep_view(c1);
                    lemma_vec_deep_view(self.classes);
                    lemma_seq_insert_props(g0[group_idx as int], left@);
                    assert(self@ =~= g0.update(group_idx as int, g0[group_idx as int].push(left@)));
                }
            },
            (None, None) => {
                // Neither expression is known.  A fresh pair carries real
                // information only when the two sides differ.
                if !left.eq_expr(right) {
                    let ghost c1 = self.classes;
                    let mut pair: Vec<Expr> = Vec::new();
                    pair.push(left.clone());
                    pair.push(right.clone());
                    proof {
                        lemma_vec_deep_view(pair);
                        assert(pair.deep_view() =~= seq![left@, right@]);
                        assert(!seq![left@, right@].contains(left@) ==> false) by {
                            assert(seq![left@, right@][0] == left@);
                        }
                    }
                    let cls = EquivalenceClass::new(pair);
                    proof {
                        assert(seq![left@, right@][0] == left@);
                        assert(seq![left@, right@][1] == right@);
                        assert(seq_distinct(seq![left@, right@]));
                        crate::seqs::lemma_seq_dedup_props(seq![left@, right@]);
                        assert(cls@ == seq![left@, right@]);
                    }
                    self.classes.push(cls);
                    proof {
                        lemma_vec_deep_view(c1);
                        lemma_vec_deep_view(self.classes);
                        assert(self@ =~= g0.push(seq![left@, right@]));
                    }
                }
            },
        }
    }

    /// Unifies classes that share a member, repeatedly, until no two classes
    /// overlap.  Each final class is a maximal connected component of the
    /// "shares a member" relation over the input classes: members known
    /// equal stay together, every newly joined pair was linked by a chain of
    /// overlapping input classes, and the union of all members is unchanged.
    pub fn bridge_classes(&mut self)
        requires
            forall|i: int| 0 <= i < old(self)@.len() ==> seq_distinct(#[trigger] old(self)@[i]),
        ensures
            group_disjoint(final(self)@),
            forall|i: int| 0 <= i < final(self)@.len() ==> seq_distinct(#[trigger] final(self)@[i]),
            (forall|i: int| 0 <= i < old(self)@.len() ==> (#[trigger] old(self)@[i]).len() >= 2)
                ==> (forall|i: int|
                0 <= i < final(self)@.len() ==> (#[trigger] final(self)@[i]).len() >= 2),
            forall|x: SpecExpr, y: SpecExpr| #[trigger] in_same_class(old(self)@, x, y)
                ==> in_same_class(final(self)@, x, y),
            forall|x: SpecExpr, y: SpecExpr| #[trigger] in_same_class(final(self)@, x, y)
                ==> connected(old(self)@, x, y),
            forall|x: SpecExpr, y: SpecExpr| #[trigger] connected(old(self)@, x, y)
                ==> in_same_class(final(self)@, x, y),
            forall|e: SpecExpr| #[trigger] in_union(final(self)@, e) <==> in_union(old(self)@, e),
    {
        let ghost orig = self@;
        proof {
            assert forall|a: SpecExpr, b: SpecExpr| in_same_class(self@, a, b)
                implies #[trigger] connected(orig, a, b) by {
                lemma_same_class_connected(orig, a, b);
            }
        }
        let mut idx: usize = 0;
        while idx < self.classes.len()
            invariant
                idx <= self@.len(),
                forall|i: int| 0 <= i < self@.len() ==> seq_distinct(#[trigger] self@[i]),
                (forall|i: int| 0 <= i < orig.len() ==> (#[trigger] orig[i]).len() >= 2)
                    ==> (forall|i: int| 0 <= i < self@.len() ==> (#[trigger] self@[i]).len() >= 2),
                forall|a: SpecExpr, b: SpecExpr| #[trigger] in_same_class(orig, a, b)
                    ==> in_same_class(self@, a, b),
                forall|a: SpecExpr, b: SpecExpr| in_same_class(self@, a, b)
                    ==> #[trigger] connected(orig, a, b),
                forall|e: SpecExpr| #[trigger] in_union(self@, e) <==> in_union(orig, e),
                forall|p: int, q: int|
                    0 <= p < self@.len() && 0 <= q < self@.len() && p != q && (p < idx || q < idx)
                        ==> seqs_disjoint(#[trigger] self@[p], #[trigger] self@[q]),
            decreases 2 * self@.len() - idx,
        {
            let ghost n0 = self@.len();
            let ghost sweep_start = self@;
            let start_size = self.classes[idx].len();
            proof {
                lemma_vec_deep_view(self.classes);
                assert(start_size == self@[idx as int].len());
            }
            let mut next_idx = idx + 1;
            while next_idx < self.classes.len()
                invariant
                    idx < self@.len(),
                    idx + 1 <= next_idx <= self@.len(),
                    self@.len() <= n0,
                    start_size == sweep_start[idx as int].len(),
                    sweep_start.len() == n0,
                    forall|i: int| 0 <= i < self@.len() ==> seq_distinct(#[trigger] self@[i]),
                    (forall|i: int| 0 <= i < orig.len() ==> (#[trigger] orig[i]).len() >= 2)
                        ==> (forall|i: int|
                        0 <= i < self@.len() ==> (#[trigger] self@[i]).len() >= 2),
                    forall|a: SpecExpr, b: SpecExpr| #[trigger] in_same_class(orig, a, b)
                        ==> in_same_class(self@, a, b),
                    forall|a: SpecExpr, b: SpecExpr| in_same_class(self@, a, b)
                        ==> #[trigger] connected(orig, a, b),
                    forall|e: SpecExpr| #[trigger] in_union(self@, e) <==> in_union(orig, e),
                    forall|p: int, q: int|
                        0 <= p < self@.len() && 0 <= q < self@.len() && p != q && (p < idx || q
                            < idx) ==> seqs_disjoint(#[trigger] self@[p], #[trigger] self@[q]),
                    self@[idx as int].len() >= start_size,
                    self@[idx as int].len() > start_size ==> self@.len() < n0,
                    self@[idx as int].len() == start_size ==> self@[idx as int]
                        == sweep_start[idx as int] && (forall|k: int|
                        idx < k < next_idx ==> seqs_disjoint(
                            self@[idx as int],
                            #[trigger] self@[k],
                        )),
                decreases self@.len() - next_idx,
            {
                proof {
                    lemma_vec_deep_view(self.classes);
                }
                if self.classes[idx].contains_any(&self.classes[next_idx]) {
                    let ghost prev = self@;
                    let extension = self.classes.swap_remove(next_idx);
                    let ghost c1 = self.classes;
                    self.classes[idx].extend(extension);
                    proof {
                        lemma_vec_deep_view(c1);
                        lemma_vec_deep_view(self.classes);
                        assert(self@ =~= seq_swap_remove(prev, next_idx as int).update(
                            idx as int,
                            seq_absorb(prev[idx as int], prev[next_idx as int]),
                        ));
                        lemma_bridge_merge_step(
                            prev,
                            self@,
                            orig,
                            idx as int,
                            next_idx as int,
                        );
                        assert forall|p: int, q: int|
                            0 <= p < self@.len() && 0 <= q < self@.len() && p != q && (p < idx
                                || q < idx) implies seqs_disjoint(
                            #[trigger] self@[p],
                            #[trigger] self@[q],
                        ) by {
                            assert forall|e: SpecExpr| #[trigger] self@[p].contains(e)
                                implies !self@[q].contains(e) by {
                                let ghost pm: int = if p == idx {
                                    idx as int
                                } else {
                                    choose|m: int|
                                        0 <= m < prev.len() && m != idx && m != next_idx
                                            && self@[p] == prev[m]
                                };
                                let ghost qm: int = if q == idx {
                                    idx as int
                                } else {
                                    choose|m: int|
                                        0 <= m < prev.len() && m != idx && m != next_idx
                                            && self@[q] == prev[m]
                                };
                                if p == idx {
                                    // q < idx, so q is untouched and disjoint from
                                    // both merged parts.
                                    assert(prev[idx as int].contains(e) || prev[
                                        next_idx as int].contains(e));
                                    assert(self@[q] == prev[qm]);
                                    assert(seqs_disjoint(prev[qm], prev[idx as int]));
                                    assert(seqs_disjoint(prev[idx as int], prev[qm]));
                                    assert(seqs_disjoint(prev[next_idx as int], prev[qm]));
                                    if self@[q].contains(e) {
                                        assert(seqs_disjoint(prev[qm], prev[idx as int]));
                                        assert(!prev[idx as int].contains(e));
                                        assert(seqs_disjoint(
                                            prev[qm],
                                            prev[next_idx as int],
                                        ));
                                        assert(!prev[next_idx as int].contains(e));
                                    }
                                } else if q == idx {
                                    assert(self@[p] == prev[pm]);
                                    assert(prev[pm].contains(e));
                                    assert(seqs_disjoint(prev[pm], prev[idx as int]));
                                    assert(seqs_disjoint(prev[pm], prev[next_idx as int]));
                                    if self@[q].contains(e) {
                                        assert(prev[idx as int].contains(e) || prev[
                                            next_idx as int].contains(e));
                                    }
                                } else {
                                    let pm2: int = if p == next_idx {
                                        prev.len() - 1
                                    } else {
                                        p as int
                                    };
                                    let qm2: int = if q == next_idx {
                                        prev.len() - 1
                                    } else {
                                        q as int
                                    };
                                    assert(self@[p] == prev[pm2]);
                                    assert(self@[q] == prev[qm2]);
                                    assert(pm2 != qm2);
                                    assert(pm2 < idx || qm2 < idx);
                                    assert(seqs_disjoint(prev[pm2], prev[qm2]));
                                }
                            }
                        }
                    }
                } else {
                    proof {
                        lemma_vec_deep_view(self.classes);
                    }
                    next_idx += 1;
                }
            }
            proof {
                lemma_vec_deep_view(self.classes);
            }
            if self.classes[idx].len() > start_size {
                // The class grew during the sweep: newly absorbed members may
                // overlap classes that were already passed, so sweep again
                // from the same cursor.
            } else {
                proof {
                    // The sweep found no overlap against the unchanged class,
                    // so the class at `idx` is now disjoint from every later
                    // class; record it into the settled prefix.
                    assert(self@[idx as int].len() == start_size);
                    assert forall|p: int, q: int|
                        0 <= p < self@.len() && 0 <= q < self@.len() && p != q && (p < idx + 1
                            || q < idx + 1) implies seqs_disjoint(
                        #[trigger] self@[p],
                        #[trigger] self@[q],
                    ) by {
                        if p == idx && q > idx {
                            assert(seqs_disjoint(self@[idx as int], self@[q]));
                        } else if q == idx && p > idx {
                            assert(seqs_disjoint(self@[idx as int], self@[p]));
                            assert forall|e: SpecExpr| #[trigger] self@[p].contains(e)
                                implies !self@[q].contains(e) by {
                                if self@[q].contains(e) {
                                    assert(!self@[p].contains(e));
                                }
                            }
                        }
                    }
                }
                idx += 1;
            }
        }
        proof {
            lemma_bridged_closure(orig, self@);
        }
    }

    /// Removes redundant entries: drops every class with fewer than two
    /// members (a singleton carries no equivalence information), then
    /// bridges classes that share a member.
    pub fn remove_redundant_entries(&mut self)
        requires
            forall|i: int| 0 <= i < old(self)@.len() ==> seq_distinct(#[trigger] old(self)@[i]),
        ensures
            final(self).wf(),
            forall|x: SpecExpr, y: SpecExpr|
                x != y && #[trigger] in_same_class(old(self)@, x, y) ==> in_same_class(
                    final(self)@,
                    x,
                    y,
                ),
            forall|x: SpecExpr, y: SpecExpr| #[trigger] in_same_class(final(self)@, x, y)
                ==> connected(old(self)@, x, y),
            forall|e: SpecExpr| #[trigger] in_union(final(self)@, e) ==> in_union(old(self)@, e),
    {
        let ghost g0 = self@;
        let mut kept: Vec<EquivalenceClass> = Vec::new();
        let n = self.classes.len();
        proof {
            lemma_vec_deep_view(self.classes);
        }
        for i in 0..n
            invariant
                n == self.classes.len(),
                g0 == self@,
                forall|i2: int| 0 <= i2 < g0.len() ==> seq_distinct(#[trigger] g0[i2]),
                forall|k: int|
                    0 <= k < kept.deep_view().len() ==> seq_distinct(#[trigger] kept.deep_view()[k])
                        && kept.deep_view()[k].len() >= 2 && g0.contains(kept.deep_view()[k]),
                forall|m: int|
                    0 <= m < i && (#[trigger] g0[m]).len() >= 2 ==> kept.deep_view().contains(
                        g0[m],
                    ),
        {
            proof {
                lemma_vec_deep_view(self.classes);
                lemma_vec_deep_view(kept);
            }
            let ghost kept0 = kept.deep_view();
            let ghost keptv0 = kept;
            if self.classes[i].len() > 1 {
                kept.push(self.classes[i].clone());
                proof {
                    lemma_vec_deep_view(keptv0);
                    lemma_vec_deep_view(kept);
                    assert(kept.deep_view() =~= kept0.push(g0[i as int]));
                    assert(kept.deep_view()[kept0.len() as int] == g0[i as int]);
                    assert(g0.contains(g0[i as int]));
                    assert forall|k: int| 0 <= k < kept.deep_view().len() implies seq_distinct(
                        #[trigger] kept.deep_view()[k],
                    ) && kept.deep_view()[k].len() >= 2 && g0.contains(kept.deep_view()[k]) by {
                        if k < kept0.len() {
                            assert(kept.deep_view()[k] == kept0[k]);
                        } else {
                            assert(kept.deep_view()[k] == g0[i as int]);
                        }
                    }
                    assert forall|m: int|
                        0 <= m < i + 1 && (#[trigger] g0[m]).len() >= 2
                            implies kept.deep_view().contains(g0[m]) by {
                        if m < i {
                            let k = choose|k: int|
                                0 <= k < kept0.len() && kept0[k] == g0[m];
                            assert(kept.deep_view()[k] == g0[m]);
                        } else {
                            assert(kept.deep_view()[kept0.len() as int] == g0[m]);
                        }
                    }
                }
            }
        }
        self.classes = kept;
        let ghost mid = self@;
        proof {
            lemma_vec_deep_view(self.classes);
            assert forall|c: Seq<SpecExpr>| #[trigger] mid.contains(c) implies g0.contains(
                c,
            ) by {
                let k = choose|k: int| 0 <= k < mid.len() && mid[k] == c;
            }
        }
        self.bridge_classes();
        proof {
            assert forall|x: SpecExpr, y: SpecExpr|
                x != y && #[trigger] in_same_class(g0, x, y) implies in_same_class(
                self@,
                x,
                y,
            ) by {
                let p = choose|p: int|
                    0 <= p < g0.len() && (#[trigger] g0[p]).contains(x) && g0[p].contains(y);
                let ix = choose|ix: int| 0 <= ix < g0[p].len() && g0[p][ix] == x;
                let iy = choose|iy: int| 0 <= iy < g0[p].len() && g0[p][iy] == y;
                assert(g0[p].len() >= 2);
                assert(mid.contains(g0[p]));
                let k = choose|k: int| 0 <= k < mid.len() && mid[k] == g0[p];
                assert(in_same_class(mid, x, y));
            }
            assert forall|x: SpecExpr, y: SpecExpr| #[trigger] in_same_class(self@, x, y)
                implies connected(g0, x, y) by {
                assert(connected(mid, x, y));
                lemma_connected_weaken(mid, g0, x, y);
            }
            assert forall|e: SpecExpr| #[trigger] in_union(self@, e) implies in_union(
                g0,
                e,
            ) by {
                assert(in_union(mid, e));
            }
        }
    }

    /// Creates an equivalence group from the given classes; the collection
    /// is immediately normalized to satisfy the partition invariant.
    pub fn new(classes: Vec<EquivalenceClass>) -> (r: Self)
        requires
            forall|i: int|
                0 <= i < classes.deep_view().len() ==> seq_distinct(
                    #[trigger] classes.deep_view()[i],
                ),
        ensures
            r.wf(),
            forall|x: SpecExpr, y: SpecExpr|
                x != y && #[trigger] in_same_class(classes.deep_view(), x, y) ==> in_same_class(
                    r@,
                    x,
                    y,
                ),
            forall|x: SpecExpr, y: SpecExpr| #[trigger] in_same_class(r@, x, y) ==> connected(
                classes.deep_view(),
                x,
                y,
            ),
            forall|e: SpecExpr| #[trigger] in_union(r@, e) ==> in_union(classes.deep_view(), e),
    {
        let ghost cs = classes.deep_view();
        let mut result = Self { classes };
        proof {
            assert(result@ == cs);
        }
        result.remove_redundant_entries();
        result
    }

    /// Extends this equivalence group with the classes of `other`, then
    /// re-normalizes.
    pub fn extend(&mut self, other: Self)
        requires
            forall|i: int| 0 <= i < old(self)@.len() ==> seq_distinct(#[trigger] old(self)@[i]),
            forall|i: int| 0 <= i < other@.len() ==> seq_distinct(#[trigger] other@[i]),
        ensures
            final(self).wf(),
            forall|x: SpecExpr, y: SpecExpr|
                x != y && #[trigger] in_same_class(old(self)@, x, y) ==> in_same_class(
                    final(self)@,
                    x,
                    y,
                ),
            forall|x: SpecExpr, y: SpecExpr|
                x != y && #[trigger] in_same_class(other@, x, y) ==> in_same_class(
                    final(self)@,
                    x,
                    y,
                ),
            forall|x: SpecExpr, y: SpecExpr| #[trigger] in_same_class(final(self)@, x, y)
                ==> connected(old(self)@ + other@, x, y),
            forall|e: SpecExpr| #[trigger] in_union(final(self)@, e) ==> in_union(old(self)@, e)
                || in_union(other@, e),
    {
        let ghost g0 = old(self)@;
        let ghost go = other@;
        let mut o = other.into_inner();
        self.classes.append(&mut o);
        let ghost cat = self@;
        proof {
            lemma_vec_deep_view(self.classes);
            assert(cat =~= g0 + go);
            assert forall|i: int| 0 <= i < cat.len() implies seq_distinct(#[trigger] cat[i]) by {
                if i < g0.len() {
                    assert(cat[i] == g0[i]);
                } else {
                    assert(cat[i] == go[i - g0.len()]);
                }
            }
        }
        self.remove_redundant_entries();
        proof {
            assert forall|x: SpecExpr, y: SpecExpr|
                x != y && #[trigger] in_same_class(g0, x, y) implies in_same_class(
                self@,
                x,
                y,
            ) by {
                let p = choose|p: int|
                    0 <= p < g0.len() && (#[trigger] g0[p]).contains(x) && g0[p].contains(y);
                assert(cat[p] == g0[p]);
                assert(in_same_class(cat, x, y));
            }
            assert forall|x: SpecExpr, y: SpecExpr|
                x != y && #[trigger] in_same_class(go, x, y) implies in_same_class(
                self@,
                x,
                y,
            ) by {
                let p = choose|p: int|
                    0 <= p < go.len() && (#[trigger] go[p]).contains(x) && go[p].contains(y);
                assert(cat[g0.len() + p] == go[p]);
                assert(in_same_class(cat, x, y));
            }
            assert forall|e: SpecExpr| #[trigger] in_union(self@, e) implies in_union(
                g0,
                e,
            ) || in_union(go, e) by {
                assert(in_union(cat, e));
                let p = choose|p: int| 0 <= p < cat.len() && (#[trigger] cat[p]).contains(e);
                if p < g0.len() {
                    assert(g0[p].contains(e));
                } else {
                    assert(go[p - g0.len()].contains(e));
                }
            }
        }
    }

    /// The class containing `expr`, if any: the first such class, which
    /// under the partition invariant is the only one.
    pub fn get_equivalence_class(&self, expr: &Expr) -> (r: Option<&EquivalenceClass>)
        ensures
            match spec_find_class(self@, expr@) {
                Some(i) => r is Some && r.unwrap()@ == self@[i],
                None => r is None,
            },
    {
        let n = self.classes.len();
        proof {
            lemma_vec_deep_view(self.classes);
        }
        for idx in 0..n
            invariant
                n == self.classes.len(),
                forall|j: int| 0 <= j < idx ==> !(#[trigger] self@[j]).contains(expr@),
        {
            proof {
                lemma_vec_deep_view(self.classes);
            }
            if self.classes[idx].contains(expr) {
                proof {
                    lemma_find_class_first(self@, expr@, idx as int);
                }
                return Some(&self.classes[idx]);
            }
        }
        proof {
            lemma_find_class_props(self@, expr@);
            if spec_find_class(self@, expr@) is Some {
                let i = spec_find_class(self@, expr@).unwrap();
                assert(!self@[i].contains(expr@));
            }
        }
        None
    }

    /// Normalizes the given expression according to this group: each
    /// subtree that matches a class is replaced by that class's canonical
    /// (first-inserted) member, top-down; a replaced subtree is not
    /// descended into.
    pub fn normalize_expr(&self, expr: &Expr) -> (r: Expr)
        ensures
            r@ == spec_normalize(self@, expr@),
        decreases expr,
    {
        let n = self.classes.len();
        proof {
            lemma_vec_deep_view(self.classes);
        }
        for idx in 0..n
            invariant
                n == self.classes.len(),
                forall|j: int| 0 <= j < idx ==> !(#[trigger] self@[j]).contains(expr@),
        {
            proof {
                lemma_vec_deep_view(self.classes);
            }
            if self.classes[idx].contains(expr) {
                proof {
                    lemma_find_class_first(self@, expr@, idx as int);
                }
                match self.classes[idx].canonical_expr() {
                    Some(canonical) => {
                        return canonical;
                    },
                    None => {
                        proof {
                            assert(self@[idx as int].contains(expr@));
                            assert(false);
                        }
                        return expr.clone();
                    },
                }
            }
        }
        proof {
            lemma_find_class_props(self@, expr@);
            if spec_find_class(self@, expr@) is Some {
                let i = spec_find_class(self@, expr@).unwrap();
                assert(!self@[i].contains(expr@));
            }
        }
        match expr {
            Expr::Binary { op, left, right } => Expr::Binary {
                op: *op,
                left: Box::new(self.normalize_expr(left)),
                right: Box::new(self.normalize_expr(right)),
            },
            _ => expr.clone(),
        }
    }

    /// Normalizes the carried expression of a sort expression, leaving the
    /// ordering options untouched.
    pub fn normalize_sort_expr(&self, sort_expr: SortExpr) -> (r: SortExpr)
        ensures
            r@.expr == spec_normalize(self@, sort_expr@.expr),
            r@.options == sort_expr@.options,
    {
        SortExpr { expr: self.normalize_expr(&sort_expr.expr), options: sort_expr.options }
    }

    /// Normalizes the carried expression of a sort requirement, leaving the
    /// ordering options untouched.
    pub fn normalize_sort_requirement(&self, sort_requirement: SortRequirement) -> (r:
        SortRequirement)
        ensures
            r@.expr == spec_normalize(self@, sort_requirement@.expr),
            r@.options == sort_requirement@.options,
    {
        SortRequirement {
            expr: self.normalize_expr(&sort_requirement.expr),
            options: sort_requirement.options,
        }
    }

    /// Normalizes every requirement and collapses entries that now carry
    /// the same normalized expression, keeping each first occurrence.
    pub fn normalize_sort_requirements(&self, sort_reqs: &Vec<SortRequirement>) -> (r: Vec<
        SortRequirement>)
        ensures
            r.deep_view() == spec_collapse(
                sort_reqs.deep_view().map_values(
                    |q: SpecSortRequirement| SpecSortRequirement {
                        expr: spec_normalize(self@, q.expr),
                        options: q.options,
                    },
                ),
            ),
    {
        let ghost target = sort_reqs.deep_view().map_values(
            |q: SpecSortRequirement| SpecSortRequirement {
                expr: spec_normalize(self@, q.expr),
                options: q.options,
            },
        );
        let mut normalized: Vec<SortRequirement> = Vec::new();
        let n = sort_reqs.len();
        proof {
            lemma_vec_deep_view(*sort_reqs);
        }
        for i in 0..n
            invariant
                n == sort_reqs.len(),
                target == sort_reqs.deep_view().map_values(
                    |q: SpecSortRequirement| SpecSortRequirement {
                        expr: spec_normalize(self@, q.expr),
                        options: q.options,
                    },
                ),
                normalized.deep_view() =~= target.take(i as int),
        {
            proof {
                lemma_vec_deep_view(*sort_reqs);
            }
            let ghost nv0 = normalized;
            normalized.push(self.normalize_sort_requirement(sort_reqs[i].clone()));
            proof {
                lemma_vec_deep_view(nv0);
                lemma_vec_deep_view(normalized);
                assert(normalized.deep_view() =~= target.take(i + 1));
            }
        }
        proof {
            assert(normalized.deep_view() =~= target);
        }
        collapse_reqs(normalized)
    }

    /// Normalizes a list of sort expressions: each is rewritten toward its
    /// canonical representative, and entries that now refer to the same
    /// normalized expression collapse to the first occurrence, keeping its
    /// direction and null ordering.
    pub fn normalize_sort_exprs(&self, sort_exprs: &Vec<SortExpr>) -> (r: Vec<SortExpr>)
        ensures
            r.deep_view() == spec_collapse(
                sort_exprs.deep_view().map_values(|s: SpecSortExpr| spec_sort_to_req(s)).map_values(
                    |q: SpecSortRequirement| SpecSortRequirement {
                        expr: spec_normalize(self@, q.expr),
                        options: q.options,
                    },
                ),
            ).map_values(|q: SpecSortRequirement| spec_req_to_sort(q)),
    {
        let ghost reqs_target = sort_exprs.deep_view().map_values(
            |s: SpecSortExpr| spec_sort_to_req(s),
        );
        let mut sort_reqs: Vec<SortRequirement> = Vec::new();
        let n = sort_exprs.len();
        proof {
            lemma_vec_deep_view(*sort_exprs);
        }
        for i in 0..n
            invariant
                n == sort_exprs.len(),
                reqs_target == sort_exprs.deep_view().map_values(
                    |s: SpecSortExpr| spec_sort_to_req(s),
                ),
                sort_reqs.deep_view() =~= reqs_target.take(i as int),
        {
            proof {
                lemma_vec_deep_view(*sort_exprs);
            }
            let ghost sv0 = sort_reqs;
            sort_reqs.push(sort_to_req(&sort_exprs[i]));
            proof {
                lemma_vec_deep_view(sv0);
                lemma_vec_deep_view(sort_reqs);
                assert(sort_reqs.deep_view() =~= reqs_target.take(i + 1));
            }
        }
        proof {
            assert(sort_reqs.deep_view() =~= reqs_target);
        }
        let normalized = self.normalize_sort_requirements(&sort_reqs);
        let ghost back_target = normalized.deep_view().map_values(
            |q: SpecSortRequirement| spec_req_to_sort(q),
        );
        let mut out: Vec<SortExpr> = Vec::new();
        let m = normalized.len();
        proof {
            lemma_vec_deep_view(normalized);
        }
        for i in 0..m
            invariant
                m == normalized.len(),
                back_target == normalized.deep_view().map_values(
                    |q: SpecSortRequirement| spec_req_to_sort(q),
                ),
                out.deep_view() =~= back_target.take(i as int),
        {
            proof {
                lemma_vec_deep_view(normalized);
            }
            let ghost ov0 = out;
            out.push(req_to_sort(&normalized[i]));
            proof {
                lemma_vec_deep_view(ov0);
                lemma_vec_deep_view(out);
                assert(out.deep_view() =~= back_target.take(i + 1));
            }
        }
        proof {
            assert(out.deep_view() =~= back_target);
        }
        out
    }

    /// Checks whether two expressions are equal either directly or through
    /// the equivalence classes: structurally identical trees, classmates,
    /// or compound nodes of the same kind whose children are pairwise equal
    /// in this sense (a congruence-closure check).
    pub fn exprs_equal(&self, left: &Expr, right: &Expr) -> (r: bool)
        requires
            self.wf(),
        ensures
            r == spec_exprs_equal(self@, left@, right@),
        decreases left,
    {
        if left.eq_expr(right) {
            return true;
        }
        match self.get_equivalence_class(left) {
            Some(cls) => {
                if cls.contains(right) {
                    proof {
                        lemma_find_class_props(self@, left@);
                        let i = spec_find_class(self@, left@).unwrap();
                        assert(self@[i].contains(left@) && self@[i].contains(right@));
                    }
                    return true;
                }
            },
            None => {},
        }
        match self.get_equivalence_class(right) {
            Some(cls) => {
                if cls.contains(left) {
                    proof {
                        lemma_find_class_props(self@, right@);
                        let i = spec_find_class(self@, right@).unwrap();
                        assert(self@[i].contains(left@) && self@[i].contains(right@));
                    }
                    return true;
                }
            },
            None => {},
        }
        proof {
            // Under the partition invariant, the first class holding one
            // side is the only candidate, so the two sides share no class.
            if in_same_class(self@, left@, right@) {
                let i = choose|i: int|
                    0 <= i < self@.len() && (#[trigger] self@[i]).contains(left@)
                        && self@[i].contains(right@);
                lemma_find_class_unique(self@, left@, i);
                lemma_find_class_unique(self@, right@, i);
            }
        }
        match left {
            Expr::Binary { left: ll, right: lr, .. } => match right {
                Expr::Binary { left: rl, right: rr, .. } => self.exprs_equal(ll, rl)
                    && self.exprs_equal(lr, rr),
                _ => false,
            },
            _ => false,
        }
    }

    /// Combines the equivalence groups of the two children of a join.
    ///
    /// For joins whose output schema concatenates both sides, the result
    /// starts from the left classes together with the right classes shifted
    /// by the left schema width; an inner join additionally records each
    /// equi-join condition as a new equality fact.  Semi/anti/mark joins
    /// keep one side's schema, so the result is exactly that side's group.
    pub fn join(
        &self,
        right_equivalences: &Self,
        join_type: JoinType,
        left_size: usize,
        on: &Vec<(Expr, Expr)>,
    ) -> (r: Self)
        requires
            self.wf(),
            right_equivalences.wf(),
            spec_join_combines(join_type) ==> forall|i: int, k: int|
                0 <= i < right_equivalences@.len() && 0 <= k < right_equivalences@[i].len()
                    ==> spec_can_offset(#[trigger] right_equivalences@[i][k], left_size as int),
            join_type == JoinType::Inner ==> forall|k: int|
                0 <= k < on.deep_view().len() ==> spec_can_offset(
                    (#[trigger] on.deep_view()[k]).1,
                    left_size as int,
                ),
        ensures
            r.wf(),
            (join_type == JoinType::LeftSemi || join_type == JoinType::LeftAnti || join_type
                == JoinType::LeftMark) ==> r@ == self@,
            (join_type == JoinType::RightSemi || join_type == JoinType::RightAnti) ==> r@
                == right_equivalences@,
            spec_join_combines(join_type) ==> forall|x: SpecExpr, y: SpecExpr|
                x != y && #[trigger] in_same_class(self@, x, y) ==> in_same_class(r@, x, y),
            spec_join_combines(join_type) ==> forall|x: SpecExpr, y: SpecExpr|
                x != y && #[trigger] in_same_class(right_equivalences@, x, y) ==> in_same_class(
                    r@,
                    spec_offset_expr(x, left_size as int),
                    spec_offset_expr(y, left_size as int),
                ),
            join_type == JoinType::Inner ==> forall|k: int|
                0 <= k < on.deep_view().len() && (#[trigger] on.deep_view()[k]).0
                    != spec_offset_expr(on.deep_view()[k].1, left_size as int) ==> in_same_class(
                    r@,
                    on.deep_view()[k].0,
                    spec_offset_expr(on.deep_view()[k].1, left_size as int),
                ),
            spec_join_combines(join_type) ==> forall|x: SpecExpr, y: SpecExpr|
                #[trigger] in_same_class(r@, x, y) ==> connected(
                    self@ + right_equivalences@.map_values(
                        |c: Seq<SpecExpr>| seq_dedup(
                            c.map_values(|e: SpecExpr| spec_offset_expr(e, left_size as int)),
                        ),
                    ) + on.deep_view().map_values(
                        |p: (SpecExpr, SpecExpr)| seq![
                            p.0,
                            spec_offset_expr(p.1, left_size as int),
                        ],
                    ),
                    x,
                    y,
                ),
    {
        match join_type {
            JoinType::Inner | JoinType::Left | JoinType::Full | JoinType::Right => {
                let ghost gl = self@;
                let ghost gr = right_equivalences@;
                let ghost d = left_size as int;
                let ghost m0 = on.deep_view();
                let ghost href = gl + gr.map_values(
                    |c: Seq<SpecExpr>| seq_dedup(
                        c.map_values(|e: SpecExpr| spec_offset_expr(e, left_size as int)),
                    ),
                ) + on.deep_view().map_values(
                    |p: (SpecExpr, SpecExpr)| seq![
                        p.0,
                        spec_offset_expr(p.1, left_size as int),
                    ],
                );
                let mut classes: Vec<EquivalenceClass> = Vec::new();
                let nl = self.classes.len();
                proof {
                    lemma_vec_deep_view(self.classes);
                }
                for i in 0..nl
                    invariant
                        nl == self.classes.len(),
                        gl == self@,
                        classes.deep_view() =~= gl.take(i as int),
                {
                    proof {
                        lemma_vec_deep_view(self.classes);
                    }
                    let ghost cv0 = classes;
                    classes.push(self.classes[i].clone());
                    proof {
                        lemma_vec_deep_view(cv0);
                        lemma_vec_deep_view(classes);
                        assert(classes.deep_view() =~= gl.take(i + 1));
                    }
                }
                proof {
                    assert(classes.deep_view() =~= gl);
                }
                let nr = right_equivalences.classes.len();
                proof {
                    lemma_vec_deep_view(right_equivalences.classes);
                }
                let ghost shifted = gr.map_values(
                    |c: Seq<SpecExpr>| seq_dedup(
                        c.map_values(|e: SpecExpr| spec_offset_expr(e, d)),
                    ),
                );
                for i in 0..nr
                    invariant
                        nr == right_equivalences.classes.len(),
                        gr == right_equivalences@,
                        d == left_size as int,
                        shifted == gr.map_values(
                            |c: Seq<SpecExpr>| seq_dedup(
                                c.map_values(|e: SpecExpr| spec_offset_expr(e, d)),
                            ),
                        ),
                        forall|i2: int, k: int|
                            0 <= i2 < gr.len() && 0 <= k < gr[i2].len() ==> spec_can_offset(
                                #[trigger] gr[i2][k],
                                d,
                            ),
                        classes.deep_view() =~= gl + shifted.take(i as int),
                {
                    proof {
                        lemma_vec_deep_view(right_equivalences.classes);
                        assert((right_equivalences.classes[i as int])@ == gr[i as int]);
                        assert forall|k: int| 0 <= k < gr[i as int].len() implies spec_can_offset(
                            #[trigger] gr[i as int][k],
                            d,
                        ) by {}
                    }
                    let ghost cv0 = classes;
                    let oc = right_equivalences.classes[i].with_offset(left_size);
                    proof {
                        assert(gr[i as int].map_values(
                            |e: SpecExpr| spec_offset_expr(e, left_size as int),
                        ) =~= gr[i as int].map_values(|e: SpecExpr| spec_offset_expr(e, d)));
                        assert(oc@ == shifted[i as int]);
                    }
                    classes.push(oc);
                    proof {
                        lemma_vec_deep_view(cv0);
                        lemma_vec_deep_view(classes);
                        assert(shifted.len() == gr.len());
                        assert(classes@ == cv0@.push(oc));
                        assert(classes.deep_view().len() == cv0.deep_view().len() + 1);
                        assert(classes.deep_view()[classes.deep_view().len() - 1] == oc
                            .deep_view());
                        assert(oc.deep_view() == oc@);
                        assert(shifted.take(i + 1) =~= shifted.take(i as int).push(
                            shifted[i as int],
                        ));
                        assert(cv0.deep_view() == gl + shifted.take(i as int));
                        assert forall|k: int| 0 <= k < classes.deep_view().len()
                            implies classes.deep_view()[k] == (gl + shifted.take(i + 1))[k] by {
                            if k < cv0.deep_view().len() {
                                assert(classes@[k] == cv0@[k]);
                                assert(classes.deep_view()[k] == cv0.deep_view()[k]);
                                assert(cv0.deep_view()[k] == (gl + shifted.take(i as int))[k]);
                                if k >= gl.len() {
                                    assert((gl + shifted.take(i as int))[k] == shifted.take(
                                        i as int,
                                    )[k - gl.len()]);
                                    assert((gl + shifted.take(i + 1))[k] == shifted.take(i + 1)[k
                                        - gl.len()]);
                                }
                            } else {
                                assert(classes.deep_view()[k] == oc.deep_view());
                                assert((gl + shifted.take(i + 1))[k] == shifted[i as int]);
                            }
                        }
                        assert(classes.deep_view() =~= gl + shifted.take(i + 1));
                    }
                }
                let ghost cat = classes.deep_view();
                proof {
                    assert(shifted.take(nr as int) =~= shifted);
                    assert(cat =~= gl + shifted);
                    assert forall|i: int| 0 <= i < cat.len() implies seq_distinct(
                        #[trigger] cat[i],
                    ) by {
                        if i < gl.len() {
                            assert(cat[i] == gl[i]);
                        } else {
                            assert(cat[i] == shifted[i - gl.len()]);
                            crate::seqs::lemma_seq_dedup_props(
                                gr[i - gl.len()].map_values(
                                    |e: SpecExpr| spec_offset_expr(e, d),
                                ),
                            );
                        }
                    }
                }
                let mut result = Self::new(classes);
                proof {
                    // Every class of the concatenation appears in the
                    // reference group that the soundness clause speaks of.
                    assert forall|i: int| 0 <= i < gr.len() implies #[trigger] href[gl.len() + i]
                        == shifted[i] by {
                        assert(gr[i].map_values(
                            |e: SpecExpr| spec_offset_expr(e, left_size as int),
                        ) =~= gr[i].map_values(|e: SpecExpr| spec_offset_expr(e, d)));
                    }
                    assert forall|c: Seq<SpecExpr>| #[trigger] cat.contains(c)
                        implies href.contains(c) by {
                        let i = choose|i: int| 0 <= i < cat.len() && cat[i] == c;
                        if i < gl.len() {
                            assert(href[i] == gl[i]);
                            assert(href[i] == c);
                        } else {
                            assert(cat[i] == shifted[i - gl.len()]);
                            assert(href[i] == shifted[i - gl.len()]);
                            assert(href[i] == c);
                        }
                    }
                    assert forall|x: SpecExpr, y: SpecExpr| #[trigger] in_same_class(
                        result@,
                        x,
                        y,
                    ) implies connected(href, x, y) by {
                        assert(connected(cat, x, y));
                        lemma_connected_weaken(cat, href, x, y);
                    }
                    assert forall|x: SpecExpr, y: SpecExpr|
                        x != y && #[trigger] in_same_class(gl, x, y) implies in_same_class(
                        result@,
                        x,
                        y,
                    ) by {
                        let p = choose|p: int|
                            0 <= p < gl.len() && (#[trigger] gl[p]).contains(x) && gl[p].contains(
                                y,
                            );
                        assert(cat[p] == gl[p]);
                        assert(in_same_class(cat, x, y));
                    }
                    assert forall|x: SpecExpr, y: SpecExpr|
                        x != y && #[trigger] in_same_class(gr, x, y) implies in_same_class(
                        result@,
                        spec_offset_expr(x, d),
                        spec_offset_expr(y, d),
                    ) by {
                        let p = choose|p: int|
                            0 <= p < gr.len() && (#[trigger] gr[p]).contains(x) && gr[p].contains(
                                y,
                            );
                        let mapped = gr[p].map_values(|e: SpecExpr| spec_offset_expr(e, d));
                        crate::seqs::lemma_seq_dedup_props(mapped);
                        assert(cat[gl.len() + p] == shifted[p]);
                        assert(shifted[p] == seq_dedup(mapped));
                        let ix = choose|ix: int| 0 <= ix < gr[p].len() && gr[p][ix] == x;
                        let iy = choose|iy: int| 0 <= iy < gr[p].len() && gr[p][iy] == y;
                        assert(mapped[ix] == spec_offset_expr(x, d));
                        assert(mapped[iy] == spec_offset_expr(y, d));
                        assert(mapped.contains(spec_offset_expr(x, d)));
                        assert(mapped.contains(spec_offset_expr(y, d)));
                        assert(shifted[p].contains(spec_offset_expr(x, d)));
                        assert(shifted[p].contains(spec_offset_expr(y, d)));
                        assert(spec_offset_expr(x, d) != spec_offset_expr(y, d)) by {
                            if spec_offset_expr(x, d) == spec_offset_expr(y, d) {
                                lemma_offset_expr_injective(x, y, d);
                            }
                        }
                        assert(in_same_class(cat, spec_offset_expr(x, d), spec_offset_expr(y, d)));
                    }
                }
                if matches!(join_type, JoinType::Inner) {
                    let ghost m = on.deep_view();
                    let n_on = on.len();
                    proof {
                        lemma_vec_deep_view(*on);
                    }
                    for k in 0..n_on
                        invariant
                            n_on == on.len(),
                            m == on.deep_view(),
                            m.len() == n_on,
                            d == left_size as int,
                            href == gl + gr.map_values(
                                |c: Seq<SpecExpr>| seq_dedup(
                                    c.map_values(
                                        |e: SpecExpr| spec_offset_expr(e, left_size as int),
                                    ),
                                ),
                            ) + on.deep_view().map_values(
                                |p: (SpecExpr, SpecExpr)| seq![
                                    p.0,
                                    spec_offset_expr(p.1, left_size as int),
                                ],
                            ),
                            href.len() == gl.len() + gr.len() + m.len(),
                            forall|k2: int|
                                0 <= k2 < m.len() ==> #[trigger] href[gl.len() + gr.len() + k2]
                                    == seq![m[k2].0, spec_offset_expr(m[k2].1, left_size as int)],
                            forall|x: SpecExpr, y: SpecExpr| #[trigger] in_same_class(
                                result@,
                                x,
                                y,
                            ) ==> connected(href, x, y),
                            forall|k2: int|
                                0 <= k2 < m.len() ==> spec_can_offset((#[trigger] m[k2]).1, d),
                            result.wf(),
                            forall|x: SpecExpr, y: SpecExpr|
                                x != y && #[trigger] in_same_class(gl, x, y) ==> in_same_class(
                                    result@,
                                    x,
                                    y,
                                ),
                            forall|x: SpecExpr, y: SpecExpr|
                                x != y && #[trigger] in_same_class(gr, x, y) ==> in_same_class(
                                    result@,
                                    spec_offset_expr(x, d),
                                    spec_offset_expr(y, d),
                                ),
                            forall|k2: int|
                                0 <= k2 < k && (#[trigger] m[k2]).0 != spec_offset_expr(m[k2].1, d)
                                    ==> in_same_class(result@, m[k2].0, spec_offset_expr(
                                    m[k2].1,
                                    d,
                                )),
                    {
                        proof {
                            lemma_vec_deep_view(*on);
                        }
                        let shifted_rhs = on[k].1.with_offset(left_size);
                        let ghost before = result@;
                        result.add_equal_conditions(&on[k].0, &shifted_rhs);
                        proof {
                            lemma_spec_add_equal_relates(before, m[k as int].0, shifted_rhs@);
                            let pc = seq![
                                m[k as int].0,
                                spec_offset_expr(m[k as int].1, left_size as int),
                            ];
                            assert(href[gl.len() + gr.len() + k] == pc);
                            assert(href.contains(pc)) by {
                                assert(href[gl.len() + gr.len() + k] == pc);
                            }
                            assert(pc[0] == m[k as int].0);
                            assert(pc[1] == spec_offset_expr(m[k as int].1, left_size as int));
                            assert(pc.contains(m[k as int].0));
                            assert(pc.contains(shifted_rhs@));
                            assert(connected(href, m[k as int].0, shifted_rhs@)) by {
                                let ch = seq![pc];
                                assert(ch[0] == pc);
                                assert(is_chain(href, ch, m[k as int].0, shifted_rhs@));
                            }
                            lemma_spec_add_equal_sound(
                                before,
                                m[k as int].0,
                                shifted_rhs@,
                                href,
                            );
                            assert forall|x: SpecExpr, y: SpecExpr|
                                x != y && #[trigger] in_same_class(gl, x, y)
                                implies in_same_class(result@, x, y) by {
                                assert(in_same_class(before, x, y));
                            }
                            assert forall|x: SpecExpr, y: SpecExpr|
                                x != y && #[trigger] in_same_class(gr, x, y)
                                implies in_same_class(result@, spec_offset_expr(x, d),
                                spec_offset_expr(y, d)) by {
                                assert(in_same_class(before, spec_offset_expr(x, d),
                                    spec_offset_expr(y, d)));
                            }
                            assert forall|k2: int|
                                0 <= k2 < k + 1 && (#[trigger] m[k2]).0 != spec_offset_expr(
                                    m[k2].1,
                                    d,
                                ) implies in_same_class(result@, m[k2].0, spec_offset_expr(
                                m[k2].1,
                                d,
                            )) by {
                                if k2 < k {
                                    assert(in_same_class(before, m[k2].0, spec_offset_expr(
                                        m[k2].1,
                                        d,
                                    )));
                                }
                            }
                        }
                    }
                }
                result
            },
            JoinType::LeftSemi | JoinType::LeftAnti | JoinType::LeftMark => self.clone(),
            JoinType::RightSemi | JoinType::RightAnti => right_equivalences.clone(),
        }
    }

    /// Projects `expr` through the given projection mapping: an exact
    /// source match or a source equivalent to `expr` through this group
    /// hands back its target; otherwise a compound expression is rebuilt
    /// from its projected children.  Returns nothing when the expression is
    /// not representable after the projection.
    pub fn project_expr(&self, mapping: &ProjectionMapping, expr: &Expr) -> (r: Option<Expr>)
        ensures
            match spec_project_expr(self@, mapping@, expr@) {
                Some(p) => r is Some && r.unwrap()@ == p,
                None => r is None,
            },
        decreases expr,
    {
        // First, try to project with an exact match; failing that, consult
        // the equivalence classes.
        match mapping.target_expr(expr) {
            Some(target) => {
                proof {
                    lemma_find_source_props(mapping@, expr@);
                }
                return Some(target);
            },
            None => {},
        }
        let pairs = mapping.iter();
        let n = pairs.len();
        proof {
            lemma_vec_deep_view(*pairs);
        }
        for k in 0..n
            invariant
                n == pairs.len(),
                pairs.deep_view() == mapping@,
                spec_find_source(mapping@, expr@) is None,
                forall|j: int|
                    0 <= j < k ==> !equiv_src_matches(self@, (#[trigger] mapping@[j]).0, expr@),
        {
            proof {
                lemma_vec_deep_view(*pairs);
            }
            let found = match self.get_equivalence_class(&pairs[k].0) {
                Some(cls) => cls.contains(expr),
                None => false,
            };
            if found {
                proof {
                    lemma_find_equiv_source_first(self@, mapping@, expr@, k as int);
                }
                return Some(pairs[k].1.clone());
            }
        }
        proof {
            lemma_find_equiv_source_props(self@, mapping@, expr@);
            if spec_find_equiv_source(self@, mapping@, expr@) is Some {
                let i = spec_find_equiv_source(self@, mapping@, expr@).unwrap();
                assert(!equiv_src_matches(self@, mapping@[i].0, expr@));
            }
        }
        // Project a non-leaf expression by projecting its children; a leaf
        // not covered by the mapping is not representable.
        match expr {
            Expr::Binary { op, left, right } => {
                match self.project_expr(mapping, left) {
                    Some(a) => match self.project_expr(mapping, right) {
                        Some(b) => Some(
                            Expr::Binary { op: *op, left: Box::new(a), right: Box::new(b) },
                        ),
                        None => None,
                    },
                    None => None,
                }
            },
            _ => None,
        }
    }

    /// Projects this equivalence group through the given projection
    /// mapping.  The result combines the surviving projections of each
    /// existing class with classes induced by the mapping itself: two
    /// mapping targets whose sources are equivalent before the projection
    /// are equivalent after it.
    /// Projects the members of each class, dropping members that are not
    /// representable; a surviving class is kept when at least two projected
    /// members (duplicates included) remain.
    fn project_carried_classes(&self, mapping: &ProjectionMapping) -> (out: Vec<
        EquivalenceClass,
    >)
        requires
            self.wf(),
        ensures
            forall|k: int|
                0 <= k < out.deep_view().len() ==> seq_distinct(#[trigger] out.deep_view()[k]),
            forall|ci: int, x: SpecExpr, y: SpecExpr|
                #![trigger self@[ci].contains(x), self@[ci].contains(y)]
                0 <= ci < self@.len() && self@[ci].contains(x) && self@[ci].contains(y)
                    && spec_project_expr(self@, mapping@, x) is Some && spec_project_expr(
                    self@,
                    mapping@,
                    y,
                ) is Some && spec_project_expr(self@, mapping@, x) != spec_project_expr(
                    self@,
                    mapping@,
                    y,
                ) ==> in_same_class(
                    out.deep_view(),
                    spec_project_expr(self@, mapping@, x).unwrap(),
                    spec_project_expr(self@, mapping@, y).unwrap(),
                ),
            forall|k: int, w: int|
                #![trigger out.deep_view()[k][w]]
                0 <= k < out.deep_view().len() && 0 <= w < out.deep_view()[k].len()
                    ==> projection_provenance(self@, mapping@, out.deep_view()[k][w]),
    {
        let ghost g = self@;
        let ghost m = mapping@;
        let mut classes: Vec<EquivalenceClass> = Vec::new();
        let nc = self.classes.len();
        proof {
            lemma_vec_deep_view(self.classes);
        }
        for ci in 0..nc
            invariant
                nc == self.classes.len(),
                g == self@,
                m == mapping@,
                self.wf(),
                forall|k: int|
                    0 <= k < classes.deep_view().len() ==> seq_distinct(
                        #[trigger] classes.deep_view()[k],
                    ),
                forall|ci2: int, x: SpecExpr, y: SpecExpr|
                    #![trigger g[ci2].contains(x), g[ci2].contains(y)]
                    0 <= ci2 < ci && g[ci2].contains(x) && g[ci2].contains(y)
                        && spec_project_expr(g, m, x) is Some && spec_project_expr(g, m, y) is Some
                        && spec_project_expr(g, m, x) != spec_project_expr(g, m, y)
                        ==> in_same_class(
                        classes.deep_view(),
                        spec_project_expr(g, m, x).unwrap(),
                        spec_project_expr(g, m, y).unwrap(),
                    ),
                forall|k: int, w: int|
                    #![trigger classes.deep_view()[k][w]]
                    0 <= k < classes.deep_view().len() && 0 <= w < classes.deep_view()[k].len()
                        ==> projection_provenance(g, m, classes.deep_view()[k][w]),
        {
            proof {
                lemma_vec_deep_view(self.classes);
            }
            let cls = &self.classes[ci];
            let ghost cv = cls@;
            proof {
                assert(cv == g[ci as int]);
            }
            let projected = self.project_members(mapping, cls);
            let ghost pdv = projected.deep_view();
            let ghost classes0 = classes.deep_view();
            if projected.len() > 1 {
                let newc = EquivalenceClass::new(projected);
                proof {
                    crate::seqs::lemma_seq_dedup_props(pdv);
                }
                classes.push(newc);
                proof {
                    lemma_vec_deep_view(classes);
                    assert(classes.deep_view().len() == classes0.len() + 1);
                    assert(forall|k: int|
                        0 <= k < classes0.len() ==> #[trigger] classes.deep_view()[k]
                            == classes0[k]);
                    assert(classes.deep_view()[classes0.len() as int] == newc@);
                    assert forall|k: int, w: int|
                        #![trigger classes.deep_view()[k][w]]
                        0 <= k < classes.deep_view().len() && 0 <= w < classes.deep_view()[
                            k
                        ].len() implies projection_provenance(
                        g,
                        m,
                        classes.deep_view()[k][w],
                    ) by {
                        if k < classes0.len() {
                            assert(classes.deep_view()[k] == classes0[k]);
                            assert(classes0[k][w] == classes.deep_view()[k][w]);
                        } else {
                            let e = classes.deep_view()[k][w];
                            assert(newc@[w] == e);
                            assert(newc@.contains(e));
                            assert(pdv.contains(e));
                            let w2 = choose|w2: int| 0 <= w2 < pdv.len() && pdv[w2] == e;
                            assert(is_projected_member(g, m, cv, pdv[w2]));
                            assert(is_projected_member(g, m, g[ci as int], e));
                        }
                    }
                }
            }
            proof {
                assert forall|ci2: int, x: SpecExpr, y: SpecExpr|
                    #![trigger g[ci2].contains(x), g[ci2].contains(y)]
                    0 <= ci2 < ci + 1 && g[ci2].contains(x) && g[ci2].contains(y)
                        && spec_project_expr(g, m, x) is Some && spec_project_expr(g, m, y) is Some
                        && spec_project_expr(g, m, x) != spec_project_expr(g, m, y)
                        implies in_same_class(
                    classes.deep_view(),
                    spec_project_expr(g, m, x).unwrap(),
                    spec_project_expr(g, m, y).unwrap(),
                ) by {
                    let px = spec_project_expr(g, m, x).unwrap();
                    let py = spec_project_expr(g, m, y).unwrap();
                    if ci2 < ci {
                        lemma_in_same_class_prefix(classes0, classes.deep_view(), px, py);
                    } else {
                        let ix = choose|ix: int| 0 <= ix < cv.len() && cv[ix] == x;
                        let iy = choose|iy: int| 0 <= iy < cv.len() && cv[iy] == y;
                        assert(pdv.contains(px));
                        assert(pdv.contains(py));
                        let wx = choose|w: int| 0 <= w < pdv.len() && pdv[w] == px;
                        let wy = choose|w: int| 0 <= w < pdv.len() && pdv[w] == py;
                        assert(pdv.len() >= 2);
                        assert(projected.len() > 1);
                        crate::seqs::lemma_seq_dedup_props(pdv);
                        let newi = classes.deep_view().len() - 1;
                        assert(classes.deep_view()[newi].contains(px));
                        assert(classes.deep_view()[newi].contains(py));
                    }
                }
            }
        }
        classes
    }

    /// Projects every member of one class, in order, keeping the successes
    /// (duplicates included).
    fn project_members(&self, mapping: &ProjectionMapping, cls: &EquivalenceClass) -> (out: Vec<
        Expr,
    >)
        ensures
            forall|j2: int|
                0 <= j2 < cls@.len() && spec_project_expr(
                    self@,
                    mapping@,
                    #[trigger] cls@[j2],
                ) is Some ==> out.deep_view().contains(
                    spec_project_expr(self@, mapping@, cls@[j2]).unwrap(),
                ),
            forall|w: int|
                0 <= w < out.deep_view().len() ==> is_projected_member(
                    self@,
                    mapping@,
                    cls@,
                    #[trigger] out.deep_view()[w],
                ),
    {
        let ghost g = self@;
        let ghost m = mapping@;
        let ghost cv = cls@;
        let members = cls.iter();
        let nm = members.len();
        proof {
            lemma_vec_deep_view(*members);
        }
        let mut projected: Vec<Expr> = Vec::new();
        proof {
            lemma_vec_deep_view(projected);
            assert(projected.deep_view().len() == 0);
        }
        for j in 0..nm
            invariant
                nm == members.len(),
                members.deep_view() == cv,
                cv.len() == nm,
                g == self@,
                m == mapping@,
                cv == cls@,
                forall|j2: int|
                    0 <= j2 < j && spec_project_expr(g, m, #[trigger] cv[j2]) is Some
                        ==> projected.deep_view().contains(
                        spec_project_expr(g, m, cv[j2]).unwrap(),
                    ),
                forall|w: int|
                    0 <= w < projected.deep_view().len() ==> is_projected_member(
                        g,
                        m,
                        cv,
                        #[trigger] projected.deep_view()[w],
                    ),
        {
            proof {
                lemma_vec_deep_view(*members);
                lemma_vec_deep_view(projected);
            }
            let ghost pv0 = projected;
            match self.project_expr(mapping, &members[j]) {
                Some(p) => {
                    projected.push(p);
                    proof {
                        lemma_vec_deep_view(pv0);
                        lemma_vec_deep_view(projected);
                        assert(projected.deep_view()[pv0.deep_view().len() as int]
                            == spec_project_expr(g, m, cv[j as int]).unwrap());
                        assert forall|j2: int|
                            0 <= j2 < j + 1 && spec_project_expr(
                                g,
                                m,
                                #[trigger] cv[j2],
                            ) is Some implies projected.deep_view().contains(
                            spec_project_expr(g, m, cv[j2]).unwrap(),
                        ) by {
                            if j2 < j {
                                let w = choose|w: int|
                                    0 <= w < pv0.deep_view().len() && pv0.deep_view()[w]
                                        == spec_project_expr(g, m, cv[j2]).unwrap();
                                assert(projected.deep_view()[w] == spec_project_expr(
                                    g,
                                    m,
                                    cv[j2],
                                ).unwrap());
                            }
                        }
                        assert forall|w: int|
                            0 <= w < projected.deep_view().len() implies is_projected_member(
                            g,
                            m,
                            cv,
                            #[trigger] projected.deep_view()[w],
                        ) by {
                            if w < pv0.deep_view().len() {
                                assert(projected.deep_view()[w] == pv0.deep_view()[w]);
                                assert(is_projected_member(g, m, cv, pv0.deep_view()[w]));
                            } else {
                                assert(spec_project_expr(g, m, cv[j as int]) == Some(
                                    projected.deep_view()[w],
                                ));
                            }
                        }
                    }
                },
                None => {},
            }
        }
        projected
    }

    /// Groups the mapping's targets by the normalized source of their pair:
    /// two targets land in one bucket exactly when their sources normalize
    /// to the same expression.  A bucket is kept only with at least two
    /// members.
    fn project_mapping_classes(&self, mapping: &ProjectionMapping) -> (out: Vec<EquivalenceClass>)
        ensures
            forall|k: int|
                0 <= k < out.deep_view().len() ==> seq_distinct(#[trigger] out.deep_view()[k]),
            forall|k1: int, k2: int|
                #![trigger mapping@[k1], mapping@[k2]]
                0 <= k1 < mapping@.len() && 0 <= k2 < mapping@.len() && spec_normalize(
                    self@,
                    mapping@[k1].0,
                ) == spec_normalize(self@, mapping@[k2].0) && mapping@[k1].1 != mapping@[k2].1
                    ==> in_same_class(out.deep_view(), mapping@[k1].1, mapping@[k2].1),
            forall|k: int, w: int|
                #![trigger out.deep_view()[k][w]]
                0 <= k < out.deep_view().len() && 0 <= w < out.deep_view()[k].len()
                    ==> is_mapping_target(mapping@, out.deep_view()[k][w]),
    {
        let ghost g = self@;
        let ghost m = mapping@;
        let pairs = mapping.iter();
        let np = pairs.len();
        proof {
            lemma_vec_deep_view(*pairs);
        }
        let mut keys: Vec<Expr> = Vec::new();
        let mut buckets: Vec<EquivalenceClass> = Vec::new();
        for k in 0..np
            invariant
                np == pairs.len(),
                pairs.deep_view() == m,
                m.len() == np,
                g == self@,
                m == mapping@,
                keys.len() == buckets.len(),
                forall|a: int, b: int|
                    0 <= a < b < keys.deep_view().len() ==> #[trigger] keys.deep_view()[a]
                        != #[trigger] keys.deep_view()[b],
                forall|b: int|
                    0 <= b < buckets.deep_view().len() ==> seq_distinct(
                        #[trigger] buckets.deep_view()[b],
                    ),
                forall|b: int, w: int|
                    #![trigger buckets.deep_view()[b][w]]
                    0 <= b < buckets.deep_view().len() && 0 <= w < buckets.deep_view()[b].len()
                        ==> is_mapping_target(m, buckets.deep_view()[b][w]),
                forall|k2: int|
                    0 <= k2 < k ==> exists|b: int|
                        0 <= b < keys.deep_view().len() && #[trigger] keys.deep_view()[b]
                            == spec_normalize(g, (#[trigger] m[k2]).0)
                            && buckets.deep_view()[b].contains(m[k2].1),
        {
            proof {
                lemma_vec_deep_view(*pairs);
                lemma_vec_deep_view(keys);
                lemma_vec_deep_view(buckets);
            }
            let nsrc = self.normalize_expr(&pairs[k].0);
            let nk = keys.len();
            let mut bucket_idx: Option<usize> = None;
            for b in 0..nk
                invariant
                    nk == keys.len(),
                    match bucket_idx {
                        Some(bi) => bi < nk && keys.deep_view()[bi as int] == nsrc@,
                        None => forall|b2: int|
                            0 <= b2 < b ==> #[trigger] keys.deep_view()[b2] != nsrc@,
                    },
            {
                proof {
                    lemma_vec_deep_view(keys);
                }
                if bucket_idx.is_none() && keys[b].eq_expr(&nsrc) {
                    bucket_idx = Some(b);
                }
            }
            let ghost keys0 = keys.deep_view();
            let ghost buckets0 = buckets.deep_view();
            let ghost kv0 = keys;
            let ghost bv0 = buckets;
            match bucket_idx {
                Some(bi) => {
                    buckets[bi].push(pairs[k].1.clone());
                    proof {
                        lemma_vec_deep_view(bv0);
                        lemma_vec_deep_view(buckets);
                        crate::seqs::lemma_seq_insert_props(
                            buckets0[bi as int],
                            m[k as int].1,
                        );
                        assert(buckets.deep_view().len() == buckets0.len());
                        assert(forall|b2: int|
                            0 <= b2 < buckets0.len() && b2 != bi ==> #[trigger] buckets
                                .deep_view()[b2] == buckets0[b2]);
                        assert(buckets.deep_view()[bi as int] == seq_insert(
                            buckets0[bi as int],
                            m[k as int].1,
                        ));
                        assert(seq_distinct(buckets.deep_view()[bi as int]));
                        assert forall|b: int, w: int|
                            #![trigger buckets.deep_view()[b][w]]
                            0 <= b < buckets.deep_view().len() && 0 <= w < buckets.deep_view()[
                                b
                            ].len() implies is_mapping_target(m, buckets.deep_view()[b][w]) by {
                            if b != bi {
                                assert(buckets.deep_view()[b] == buckets0[b]);
                                assert(buckets0[b][w] == buckets.deep_view()[b][w]);
                            } else {
                                if w < buckets0[bi as int].len() {
                                    assert(buckets.deep_view()[b][w] == buckets0[bi as int][w]);
                                } else {
                                    assert(buckets.deep_view()[b][w] == m[k as int].1);
                                }
                            }
                        }
                        assert forall|k2: int| 0 <= k2 < k + 1 implies exists|b: int|
                            0 <= b < keys.deep_view().len() && #[trigger] keys.deep_view()[b]
                                == spec_normalize(g, (#[trigger] m[k2]).0)
                                && buckets.deep_view()[b].contains(m[k2].1) by {
                            if k2 < k {
                                let b0 = choose|b: int|
                                    0 <= b < keys0.len() && #[trigger] keys0[b]
                                        == spec_normalize(g, m[k2].0) && buckets0[b].contains(
                                        m[k2].1,
                                    );
                                assert(buckets.deep_view()[b0].contains(m[k2].1));
                            } else {
                                assert(keys.deep_view()[bi as int] == spec_normalize(
                                    g,
                                    m[k as int].0,
                                ));
                                assert(buckets.deep_view()[bi as int].contains(m[k as int].1));
                            }
                        }
                    }
                },
                None => {
                    keys.push(nsrc);
                    let mut newb = EquivalenceClass::new_empty();
                    proof {
                        assert(!Seq::<SpecExpr>::empty().contains(m[k as int].1));
                    }
                    newb.push(pairs[k].1.clone());
                    proof {
                        assert(newb@ == Seq::<SpecExpr>::empty().push(m[k as int].1));
                        assert(newb@[0] == m[k as int].1);
                        assert(newb@.contains(m[k as int].1));
                    }
                    buckets.push(newb);
                    proof {
                        lemma_vec_deep_view(kv0);
                        lemma_vec_deep_view(keys);
                        lemma_vec_deep_view(bv0);
                        lemma_vec_deep_view(buckets);
                        assert(keys.deep_view() =~= keys0.push(spec_normalize(
                            g,
                            m[k as int].0,
                        )));
                        assert(buckets.deep_view().len() == buckets0.len() + 1);
                        assert(forall|b2: int|
                            0 <= b2 < buckets0.len() ==> #[trigger] buckets.deep_view()[b2]
                                == buckets0[b2]);
                        assert(buckets.deep_view()[buckets0.len() as int] == newb@);
                        assert(buckets.deep_view()[buckets0.len() as int].contains(
                            m[k as int].1,
                        ));
                        assert forall|b: int, w: int|
                            #![trigger buckets.deep_view()[b][w]]
                            0 <= b < buckets.deep_view().len() && 0 <= w < buckets.deep_view()[
                                b
                            ].len() implies is_mapping_target(m, buckets.deep_view()[b][w]) by {
                            if b < buckets0.len() {
                                assert(buckets.deep_view()[b] == buckets0[b]);
                                assert(buckets0[b][w] == buckets.deep_view()[b][w]);
                            } else {
                                assert(buckets.deep_view()[b][w] == m[k as int].1);
                            }
                        }
                        assert forall|k2: int| 0 <= k2 < k + 1 implies exists|b: int|
                            0 <= b < keys.deep_view().len() && #[trigger] keys.deep_view()[b]
                                == spec_normalize(g, (#[trigger] m[k2]).0)
                                && buckets.deep_view()[b].contains(m[k2].1) by {
                            if k2 < k {
                                let b0 = choose|b: int|
                                    0 <= b < keys0.len() && #[trigger] keys0[b]
                                        == spec_normalize(g, m[k2].0) && buckets0[b].contains(
                                        m[k2].1,
                                    );
                                assert(keys.deep_view()[b0] == keys0[b0]);
                                assert(buckets.deep_view()[b0].contains(m[k2].1));
                            } else {
                                assert(keys.deep_view()[keys0.len() as int] == spec_normalize(
                                    g,
                                    m[k as int].0,
                                ));
                            }
                        }
                    }
                },
            }
        }
        let ghost keysv = keys.deep_view();
        let ghost bucketsv = buckets.deep_view();
        let mut out: Vec<EquivalenceClass> = Vec::new();
        let nb = buckets.len();
        proof {
            lemma_vec_deep_view(buckets);
        }
        for b in 0..nb
            invariant
                nb == buckets.len(),
                bucketsv == buckets.deep_view(),
                bucketsv.len() == nb,
                g == self@,
                m == mapping@,
                forall|b2: int| 0 <= b2 < nb ==> seq_distinct(#[trigger] bucketsv[b2]),
                forall|b2: int, w: int|
                    #![trigger bucketsv[b2][w]]
                    0 <= b2 < nb && 0 <= w < bucketsv[b2].len() ==> is_mapping_target(
                        m,
                        bucketsv[b2][w],
                    ),
                forall|k: int|
                    0 <= k < out.deep_view().len() ==> seq_distinct(
                        #[trigger] out.deep_view()[k],
                    ),
                forall|k: int, w: int|
                    #![trigger out.deep_view()[k][w]]
                    0 <= k < out.deep_view().len() && 0 <= w < out.deep_view()[k].len()
                        ==> is_mapping_target(m, out.deep_view()[k][w]),
                forall|b2: int|
                    0 <= b2 < b && (#[trigger] bucketsv[b2]).len() >= 2 ==> out.deep_view()
                        .contains(bucketsv[b2]),
        {
            proof {
                lemma_vec_deep_view(buckets);
                lemma_vec_deep_view(out);
            }
            let ghost out0 = out.deep_view();
            if buckets[b].len() > 1 {
                out.push(buckets[b].clone());
                proof {
                    lemma_vec_deep_view(out);
                    assert(out.deep_view().len() == out0.len() + 1);
                    assert(forall|i: int|
                        0 <= i < out0.len() ==> #[trigger] out.deep_view()[i] == out0[i]);
                    assert(out.deep_view()[out0.len() as int] == bucketsv[b as int]);
                    assert forall|b2: int|
                        0 <= b2 < b + 1 && (#[trigger] bucketsv[b2]).len() >= 2
                            implies out.deep_view().contains(bucketsv[b2]) by {
                        if b2 < b {
                            let w = choose|w: int| 0 <= w < out0.len() && out0[w] == bucketsv[b2];
                            assert(out.deep_view()[w] == bucketsv[b2]);
                        } else {
                            assert(out.deep_view()[out0.len() as int] == bucketsv[b2]);
                        }
                    }
                }
            }
        }
        proof {
            assert forall|k1: int, k2: int|
                #![trigger m[k1], m[k2]]
                0 <= k1 < m.len() && 0 <= k2 < m.len() && spec_normalize(g, m[k1].0)
                    == spec_normalize(g, m[k2].0) && m[k1].1 != m[k2].1 implies in_same_class(
                out.deep_view(),
                m[k1].1,
                m[k2].1,
            ) by {
                let b1 = choose|b: int|
                    0 <= b < keysv.len() && #[trigger] keysv[b] == spec_normalize(g, m[k1].0)
                        && bucketsv[b].contains(m[k1].1);
                let b2 = choose|b: int|
                    0 <= b < keysv.len() && #[trigger] keysv[b] == spec_normalize(g, m[k2].0)
                        && bucketsv[b].contains(m[k2].1);
                assert(b1 == b2);
                assert(bucketsv[b1].contains(m[k1].1) && bucketsv[b1].contains(m[k2].1));
                let i1 = choose|i: int|
                    0 <= i < bucketsv[b1].len() && bucketsv[b1][i] == m[k1].1;
                let i2 = choose|i: int|
                    0 <= i < bucketsv[b1].len() && bucketsv[b1][i] == m[k2].1;
                assert(bucketsv[b1].len() >= 2);
                assert(out.deep_view().contains(bucketsv[b1]));
                let w = choose|w: int|
                    0 <= w < out.deep_view().len() && out.deep_view()[w] == bucketsv[b1];
                assert(in_same_class(out.deep_view(), m[k1].1, m[k2].1));
            }
        }
        out
    }

    /// Projects this equivalence group through the given projection
    /// mapping.  The result combines the surviving projections of each
    /// existing class with classes induced by the mapping itself: two
    /// mapping targets whose sources are equivalent before the projection
    /// are equivalent after it, and every member of the result is either a
    /// projected member of an existing class or a mapping target.
    pub fn project(&self, mapping: &ProjectionMapping) -> (r: Self)
        requires
            self.wf(),
        ensures
            r.wf(),
            forall|ci: int, x: SpecExpr, y: SpecExpr|
                #![trigger self@[ci].contains(x), self@[ci].contains(y)]
                0 <= ci < self@.len() && self@[ci].contains(x) && self@[ci].contains(y)
                    && spec_project_expr(self@, mapping@, x) is Some && spec_project_expr(
                    self@,
                    mapping@,
                    y,
                ) is Some && spec_project_expr(self@, mapping@, x) != spec_project_expr(
                    self@,
                    mapping@,
                    y,
                ) ==> in_same_class(
                    r@,
                    spec_project_expr(self@, mapping@, x).unwrap(),
                    spec_project_expr(self@, mapping@, y).unwrap(),
                ),
            forall|k1: int, k2: int|
                #![trigger mapping@[k1], mapping@[k2]]
                0 <= k1 < mapping@.len() && 0 <= k2 < mapping@.len() && spec_normalize(
                    self@,
                    mapping@[k1].0,
                ) == spec_normalize(self@, mapping@[k2].0) && mapping@[k1].1 != mapping@[k2].1
                    ==> in_same_class(r@, mapping@[k1].1, mapping@[k2].1),
            forall|e: SpecExpr| #[trigger] in_union(r@, e) ==> projection_provenance(
                self@,
                mapping@,
                e,
            ),
    {
        let ghost g = self@;
        let ghost m = mapping@;
        let mut classes = self.project_carried_classes(mapping);
        let ghost carried = classes.deep_view();
        let mut induced = self.project_mapping_classes(mapping);
        let ghost inducedv = induced.deep_view();
        classes.append(&mut induced);
        let ghost allv = classes.deep_view();
        proof {
            lemma_vec_deep_view(classes);
            assert(allv =~= carried + inducedv);
            assert forall|k: int| 0 <= k < allv.len() implies seq_distinct(
                #[trigger] allv[k],
            ) by {
                if k < carried.len() {
                    assert(allv[k] == carried[k]);
                } else {
                    assert(allv[k] == inducedv[k - carried.len()]);
                }
            }
        }
        let result = Self::new(classes);
        proof {
            assert forall|ci: int, x: SpecExpr, y: SpecExpr|
                #![trigger g[ci].contains(x), g[ci].contains(y)]
                0 <= ci < g.len() && g[ci].contains(x) && g[ci].contains(y) && spec_project_expr(
                    g,
                    m,
                    x,
                ) is Some && spec_project_expr(g, m, y) is Some && spec_project_expr(g, m, x)
                    != spec_project_expr(g, m, y) implies in_same_class(
                result@,
                spec_project_expr(g, m, x).unwrap(),
                spec_project_expr(g, m, y).unwrap(),
            ) by {
                let px = spec_project_expr(g, m, x).unwrap();
                let py = spec_project_expr(g, m, y).unwrap();
                assert(in_same_class(carried, px, py));
                lemma_in_same_class_prefix(carried, allv, px, py);
                assert(px != py);
            }
            assert forall|k1: int, k2: int|
                #![trigger m[k1], m[k2]]
                0 <= k1 < m.len() && 0 <= k2 < m.len() && spec_normalize(g, m[k1].0)
                    == spec_normalize(g, m[k2].0) && m[k1].1 != m[k2].1 implies in_same_class(
                result@,
                m[k1].1,
                m[k2].1,
            ) by {
                assert(in_same_class(inducedv, m[k1].1, m[k2].1));
                let q = choose|q: int|
                    0 <= q < inducedv.len() && (#[trigger] inducedv[q]).contains(m[k1].1)
                        && inducedv[q].contains(m[k2].1);
                assert(allv[carried.len() + q] == inducedv[q]);
                assert(in_same_class(allv, m[k1].1, m[k2].1));
            }
            assert forall|e: SpecExpr| #[trigger] in_union(result@, e)
                implies projection_provenance(g, m, e) by {
                assert(in_union(allv, e));
                let k = choose|k: int| 0 <= k < allv.len() && (#[trigger] allv[k]).contains(e);
                let w = choose|w: int| 0 <= w < allv[k].len() && allv[k][w] == e;
                if k < carried.len() {
                    assert(allv[k] == carried[k]);
                    assert(carried[k][w] == e);
                } else {
                    assert(allv[k] == inducedv[k - carried.len()]);
                    assert(inducedv[k - carried.len()][w] == e);
                }
            }
        }
        result
    }

    /// Applies `normalize_expr` to every expression in `exprs`.
    pub fn normalize_exprs(&self, exprs: &Vec<Expr>) -> (r: Vec<Expr>)
        ensures
            r.deep_view() == exprs.deep_view().map_values(
                |e: SpecExpr| spec_normalize(self@, e),
            ),
    {
        let ghost target = exprs.deep_view().map_values(|e: SpecExpr| spec_normalize(self@, e));
        let mut r: Vec<Expr> = Vec::new();
        let n = exprs.len();
        proof {
            lemma_vec_deep_view(*exprs);
        }
        for i in 0..n
            invariant
                n == exprs.len(),
                target == exprs.deep_view().map_values(|e: SpecExpr| spec_normalize(self@, e)),
                r.deep_view() =~= target.take(i as int),
        {
            proof {
                lemma_vec_deep_view(*exprs);
            }
            let ghost rv0 = r;
            r.push(self.normalize_expr(&exprs[i]));
            proof {
                lemma_vec_deep_view(rv0);
                lemma_vec_deep_view(r);
                assert(r.deep_view() =~= target.take(i + 1));
            }
        }
        proof {
            assert(r.deep_view() =~= target);
        }
        r
    }
}

impl Clone for EquivalenceGroup {
    /// Deep copy with the same classes.
    fn clone(&self) -> (r: Self)
        ensures
            r@ == self@,
    {
        let mut v: Vec<EquivalenceClass> = Vec::new();
        let n = self.classes.len();
        proof {
            lemma_vec_deep_view(self.classes);
        }
        for i in 0..n
            invariant
                n == self.classes.len(),
                v.deep_view() =~= self@.take(i as int),
        {
            proof {
                lemma_vec_deep_view(self.classes);
            }
            let ghost v0 = v;
            v.push(self.classes[i].clone());
            proof {
                lemma_vec_deep_view(v0);
                lemma_vec_deep_view(v);
                assert(v.deep_view() =~= self@.take(i + 1));
            }
        }
        proof {
            assert(v.deep_view() =~= self@);
        }
        Self { classes: v }
    }
}

} // verus!
