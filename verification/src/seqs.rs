//! General lemmas about filtered sequences, used to relate loop-built
//! vectors to their specifications.

use vstd::prelude::*;

verus! {

/// Filtering a singleton keeps or drops its one element.
pub proof fn lemma_filter_singleton<A>(x: A, p: spec_fn(A) -> bool)
    ensures
        p(x) ==> seq![x].filter(p) == seq![x],
        !p(x) ==> seq![x].filter(p) == Seq::<A>::empty(),
{
    reveal_with_fuel(Seq::filter, 2);
    assert(seq![x].drop_last() =~= Seq::<A>::empty());
    assert(Seq::<A>::empty().filter(p) =~= Seq::<A>::empty());
    if p(x) {
        assert(seq![x].filter(p) =~= seq![x]);
    } else {
        assert(seq![x].filter(p) =~= Seq::<A>::empty());
    }
}

/// Filtering one more element extends the filtered prefix by that
/// element exactly when it satisfies the predicate.
pub proof fn lemma_filter_subrange_step<A>(s: Seq<A>, p: spec_fn(A) -> bool, i: int)
    requires
        0 <= i < s.len(),
    ensures
        p(s[i]) ==> s.subrange(0, i + 1).filter(p) == s.subrange(0, i).filter(p).push(s[i]),
        !p(s[i]) ==> s.subrange(0, i + 1).filter(p) == s.subrange(0, i).filter(p),
{
    assert(s.subrange(0, i + 1) =~= s.subrange(0, i) + seq![s[i]]);
    Seq::filter_distributes_over_add(s.subrange(0, i), seq![s[i]], p);
    lemma_filter_singleton(s[i], p);
    if p(s[i]) {
        assert(s.subrange(0, i).filter(p) + seq![s[i]] =~= s.subrange(0, i).filter(p).push(
            s[i],
        ));
    } else {
        assert(s.subrange(0, i).filter(p) + Seq::<A>::empty() =~= s.subrange(0, i).filter(p));
    }
}

/// A full subrange filters to the same sequence as the whole.
pub proof fn lemma_filter_whole<A>(s: Seq<A>, p: spec_fn(A) -> bool)
    ensures
        s.subrange(0, s.len() as int).filter(p) == s.filter(p),
{
    assert(s.subrange(0, s.len() as int) =~= s);
}

/// The first element satisfying the predicate heads the filtered
/// sequence.
pub proof fn lemma_filter_first<A>(s: Seq<A>, p: spec_fn(A) -> bool, i: int)
    requires
        0 <= i < s.len(),
        p(s[i]),
        forall|j: int| 0 <= j < i ==> !p(s[j]),
    ensures
        s.filter(p).len() > 0,
        s.filter(p)[0] == s[i],
    decreases s.len(),
{
    reveal(Seq::filter);
    if i == s.len() - 1 {
        lemma_filter_all_dropped(s.drop_last(), p);
    } else {
        assert(s.drop_last()[i] == s[i]);
        lemma_filter_first(s.drop_last(), p, i);
    }
}

/// A sequence with no element satisfying the predicate filters to
/// nothing.
pub proof fn lemma_filter_all_dropped<A>(s: Seq<A>, p: spec_fn(A) -> bool)
    requires
        forall|j: int| 0 <= j < s.len() ==> !p(s[j]),
    ensures
        s.filter(p) == Seq::<A>::empty(),
    decreases s.len(),
{
    reveal(Seq::filter);
    if s.len() > 0 {
        lemma_filter_all_dropped(s.drop_last(), p);
        assert(s.filter(p) =~= Seq::<A>::empty());
    } else {
        assert(s.filter(p) =~= Seq::<A>::empty());
    }
}

/// Every element of a filtered sequence occurs in the unfiltered one.
pub proof fn lemma_filter_membership<A>(s: Seq<A>, p: spec_fn(A) -> bool)
    ensures
        forall|i: int|
            0 <= i < s.filter(p).len() ==> s.contains(#[trigger] s.filter(p)[i]),
    decreases s.len(),
{
    reveal(Seq::filter);
    if s.len() > 0 {
        lemma_filter_membership(s.drop_last(), p);
        assert forall|i: int| 0 <= i < s.filter(p).len() implies s.contains(
            #[trigger] s.filter(p)[i],
        ) by {
            let sub = s.drop_last().filter(p);
            if i < sub.len() {
                assert(sub[i] == s.filter(p)[i]);
                let w = choose|w: int| 0 <= w < s.drop_last().len() && s.drop_last()[w] == sub[i];
                assert(s[w] == sub[i]);
            } else {
                assert(s.filter(p)[i] == s.last());
                assert(s[s.len() - 1] == s.last());
            }
        }
    }
}

/// Filtering by a stronger predicate ignores a prior filter by a weaker
/// one.
pub proof fn lemma_filter_implied<A>(s: Seq<A>, p: spec_fn(A) -> bool, q: spec_fn(A) -> bool)
    requires
        forall|x: A| #[trigger] q(x) ==> p(x),
    ensures
        s.filter(p).filter(q) == s.filter(q),
    decreases s.len(),
{
    reveal(Seq::filter);
    if s.len() > 0 {
        lemma_filter_implied(s.drop_last(), p, q);
        if p(s.last()) {
            assert(s.filter(p) == s.drop_last().filter(p).push(s.last()));
            assert(s.drop_last().filter(p).push(s.last()) =~= s.drop_last().filter(p)
                + seq![s.last()]);
            Seq::filter_distributes_over_add(s.drop_last().filter(p), seq![s.last()], q);
            lemma_filter_singleton(s.last(), q);
            if q(s.last()) {
                assert(s.filter(p).filter(q) =~= s.filter(q));
            } else {
                assert(s.filter(p).filter(q) =~= s.filter(q));
            }
        } else {
            assert(s.filter(p).filter(q) =~= s.filter(q));
        }
    } else {
        assert(s.filter(p).filter(q) =~= s.filter(q));
    }
}

/// Two pointwise-equal predicates filter a sequence identically.
pub proof fn lemma_filter_congruence<A>(s: Seq<A>, p: spec_fn(A) -> bool, q: spec_fn(A) -> bool)
    requires
        forall|x: A| #[trigger] p(x) == q(x),
    ensures
        s.filter(p) == s.filter(q),
    decreases s.len(),
{
    reveal(Seq::filter);
    if s.len() > 0 {
        lemma_filter_congruence(s.drop_last(), p, q);
        assert(s.filter(p) =~= s.filter(q));
    } else {
        assert(s.filter(p) =~= s.filter(q));
    }
}

} // verus!
