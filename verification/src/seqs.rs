//! Sequence helpers shared by the equivalence containers.
//!
//! An equivalence class is modelled as an insertion-ordered sequence of
//! distinct elements.  The functions here define duplicate-free insertion,
//! duplicate-absorbing concatenation and first-occurrence deduplication, with
//! the lemmas the container proofs need.

use vstd::prelude::*;

verus! {

/// No element occurs twice.
pub open spec fn seq_distinct<T>(s: Seq<T>) -> bool {
    forall|i: int, j: int| #![trigger s[i], s[j]] 0 <= i < j < s.len() ==> s[i] != s[j]
}

/// Insertion that absorbs duplicates: the sequence unchanged when `e` is
/// already present, else `e` appended.
pub open spec fn seq_insert<T>(s: Seq<T>, e: T) -> Seq<T> {
    if s.contains(e) {
        s
    } else {
        s.push(e)
    }
}

/// Every element of `b` inserted into `a` in order, each absorbing
/// duplicates.
pub open spec fn seq_absorb<T>(a: Seq<T>, b: Seq<T>) -> Seq<T>
    decreases b.len(),
{
    if b.len() == 0 {
        a
    } else {
        seq_absorb(seq_insert(a, b[0]), b.drop_first())
    }
}

/// First-occurrence deduplication.
pub open spec fn seq_dedup<T>(s: Seq<T>) -> Seq<T> {
    seq_absorb(Seq::empty(), s)
}

/// The two sequences share at least one element.
pub open spec fn seqs_overlap<T>(a: Seq<T>, b: Seq<T>) -> bool {
    exists|e: T| #[trigger] a.contains(e) && b.contains(e)
}

/// The two sequences share no element.
pub open spec fn seqs_disjoint<T>(a: Seq<T>, b: Seq<T>) -> bool {
    forall|e: T| #[trigger] a.contains(e) ==> !b.contains(e)
}

pub proof fn lemma_seq_insert_props<T>(s: Seq<T>, e: T)
    ensures
        forall|x: T| #[trigger] seq_insert(s, e).contains(x) <==> (s.contains(x) || x == e),
        seq_distinct(s) ==> seq_distinct(seq_insert(s, e)),
        s.len() <= seq_insert(s, e).len() <= s.len() + 1,
        forall|i: int| 0 <= i < s.len() ==> #[trigger] seq_insert(s, e)[i] == s[i],
        seq_insert(s, e).len() == s.len() <==> s.contains(e),
        !s.contains(e) ==> seq_insert(s, e) == s.push(e),
{
    if s.contains(e) {
        assert(forall|x: T| #[trigger] seq_insert(s, e).contains(x) <==> (s.contains(x) || x
            == e));
    } else {
        assert forall|x: T| #[trigger] seq_insert(s, e).contains(x) implies (s.contains(x) || x
            == e) by {
            let i = choose|i: int| 0 <= i < s.push(e).len() && s.push(e)[i] == x;
            if i < s.len() {
                assert(s[i] == x);
            }
        }
        assert forall|x: T| s.contains(x) || x == e implies #[trigger] seq_insert(
            s,
            e,
        ).contains(x) by {
            if s.contains(x) {
                let i = choose|i: int| 0 <= i < s.len() && s[i] == x;
                assert(s.push(e)[i] == x);
            } else {
                assert(s.push(e)[s.len() as int] == e);
            }
        }
        if seq_distinct(s) {
            assert forall|i: int, j: int| 0 <= i < j < s.push(e).len() implies s.push(e)[i]
                != s.push(e)[j] by {
                if j == s.len() {
                    assert(s[i] == s.push(e)[i]);
                    assert(!s.contains(e));
                }
            }
        }
    }
}

pub proof fn lemma_seq_absorb_props<T>(a: Seq<T>, b: Seq<T>)
    ensures
        forall|x: T| #[trigger] seq_absorb(a, b).contains(x) <==> (a.contains(x) || b.contains(
            x,
        )),
        seq_distinct(a) ==> seq_distinct(seq_absorb(a, b)),
        a.len() <= seq_absorb(a, b).len(),
        forall|i: int| 0 <= i < a.len() ==> #[trigger] seq_absorb(a, b)[i] == a[i],
        seq_absorb(a, b).len() == a.len() ==> seq_absorb(a, b) == a,
    decreases b.len(),
{
    if b.len() == 0 {
        assert(forall|x: T| b.contains(x) ==> false);
    } else {
        let a1 = seq_insert(a, b[0]);
        lemma_seq_insert_props(a, b[0]);
        lemma_seq_absorb_props(a1, b.drop_first());
        assert forall|x: T| a.contains(x) || b.contains(x) implies #[trigger] seq_absorb(
            a,
            b,
        ).contains(x) by {
            if b.contains(x) {
                let i = choose|i: int| 0 <= i < b.len() && b[i] == x;
                if i == 0 {
                    assert(a1.contains(x));
                } else {
                    assert(b.drop_first()[i - 1] == x);
                    assert(b.drop_first().contains(x));
                }
            }
        }
        assert forall|x: T| #[trigger] seq_absorb(a, b).contains(x) implies (a.contains(x)
            || b.contains(x)) by {
            if a1.contains(x) && !a.contains(x) {
                assert(b[0] == x);
            }
            if b.drop_first().contains(x) {
                let i = choose|i: int| 0 <= i < b.drop_first().len() && b.drop_first()[i] == x;
                assert(b[i + 1] == x);
            }
        }
        if seq_absorb(a, b).len() == a.len() {
            assert(a1.len() == a.len());
            assert(seq_absorb(a1, b.drop_first()) == a1);
        }
    }
}

/// Absorbing a sequence disjoint from the receiver is plain concatenation.
pub proof fn lemma_seq_absorb_disjoint<T>(a: Seq<T>, b: Seq<T>)
    requires
        seqs_disjoint(b, a),
        seq_distinct(b),
    ensures
        seq_absorb(a, b) == a + b,
    decreases b.len(),
{
    if b.len() == 0 {
        assert(a + b =~= a);
    } else {
        assert(b.contains(b[0]));
        assert(!a.contains(b[0]));
        let a1 = a.push(b[0]);
        lemma_seq_insert_props(a, b[0]);
        assert(seq_insert(a, b[0]) == a1);
        assert forall|e: T| #[trigger] b.drop_first().contains(e) implies !a1.contains(e) by {
            let i = choose|i: int| 0 <= i < b.drop_first().len() && b.drop_first()[i] == e;
            assert(b[i + 1] == e);
            assert(b.contains(e));
            if a1.contains(e) {
                let j = choose|j: int| 0 <= j < a1.len() && a1[j] == e;
                if j < a.len() {
                    assert(a.contains(e));
                } else {
                    assert(e == b[0]);
                }
            }
        }
        assert(seq_distinct(b.drop_first())) by {
            assert(forall|i: int| 0 <= i < b.drop_first().len() ==> #[trigger] b.drop_first()[i]
                == b[i + 1]);
        }
        lemma_seq_absorb_disjoint(a1, b.drop_first());
        assert(a1 + b.drop_first() =~= a + b);
    }
}

/// Absorbing `b.push(x)` is absorbing `b`, then inserting `x`.
pub proof fn lemma_seq_absorb_snoc<T>(a: Seq<T>, b: Seq<T>, x: T)
    ensures
        seq_absorb(a, b.push(x)) == seq_insert(seq_absorb(a, b), x),
    decreases b.len(),
{
    if b.len() == 0 {
        assert(b.push(x)[0] == x);
        assert(b.push(x).drop_first() =~= Seq::<T>::empty());
        assert(seq_absorb(a, b.push(x)) == seq_absorb(
            seq_insert(a, x),
            Seq::<T>::empty(),
        ));
        assert(seq_absorb(seq_insert(a, x), Seq::<T>::empty()) == seq_insert(a, x));
    } else {
        assert(b.push(x)[0] == b[0]);
        assert(b.push(x).drop_first() =~= b.drop_first().push(x));
        lemma_seq_absorb_snoc(seq_insert(a, b[0]), b.drop_first(), x);
        assert(seq_absorb(a, b.push(x)) == seq_absorb(
            seq_insert(a, b[0]),
            b.drop_first().push(x),
        ));
        assert(seq_absorb(a, b) == seq_absorb(seq_insert(a, b[0]), b.drop_first()));
    }
}

/// Pointwise description of a vector's deep view.
pub proof fn lemma_vec_deep_view<T: DeepView>(v: Vec<T>)
    ensures
        v.deep_view().len() == v@.len(),
        forall|i: int| 0 <= i < v@.len() ==> #[trigger] v.deep_view()[i] == v@[i].deep_view(),
{
}

/// Pointwise description of a slice's deep view.
pub proof fn lemma_slice_deep_view<T: DeepView>(v: &[T])
    ensures
        v.deep_view().len() == v@.len(),
        forall|i: int| 0 <= i < v@.len() ==> #[trigger] v.deep_view()[i] == v@[i].deep_view(),
{
}

/// Deduplication facts, instantiated from the absorb lemmas.
pub proof fn lemma_seq_dedup_props<T>(s: Seq<T>)
    ensures
        forall|x: T| #[trigger] seq_dedup(s).contains(x) <==> s.contains(x),
        seq_distinct(seq_dedup(s)),
        seq_distinct(s) ==> seq_dedup(s) == s,
{
    lemma_seq_absorb_props(Seq::<T>::empty(), s);
    if seq_distinct(s) {
        assert forall|e: T| #[trigger] s.contains(e) implies !Seq::<T>::empty().contains(e) by {}
        lemma_seq_absorb_disjoint(Seq::<T>::empty(), s);
        assert(Seq::<T>::empty() + s =~= s);
    }
}

} // verus!

verus! {

/// The sequence after a swap-removal at `i`: the last element moves into
/// position `i` and the length shrinks by one.
pub open spec fn seq_swap_remove<T>(s: Seq<T>, i: int) -> Seq<T> {
    s.update(i, s.last()).drop_last()
}

} // verus!
