//! Lookup-key aggregation.
//!
//! Before a batch fetch, the keys collected across a parent set are
//! sorted and deduplicated, so every batch request carries a strictly
//! increasing key list: a deterministic, minimal fetch filter.

use vstd::prelude::*;

verus! {

/// A strictly increasing sequence: sorted, and therefore free of
/// duplicates.
pub open spec fn strictly_sorted(s: Seq<u64>) -> bool {
    forall|i: int, j: int| 0 <= i < j < s.len() ==> s[i] < s[j]
}

/// A strictly sorted sequence has no duplicates.
pub proof fn lemma_strictly_sorted_no_duplicates(s: Seq<u64>)
    requires
        strictly_sorted(s),
    ensures
        s.no_duplicates(),
{
}

/// Inserts a key into a strictly sorted vector, keeping it strictly
/// sorted; a key already present is not added again.
pub fn insert_key(ks: &mut Vec<u64>, x: u64)
    requires
        strictly_sorted(old(ks)@),
    ensures
        strictly_sorted(final(ks)@),
        final(ks)@.to_set() == old(ks)@.to_set().insert(x),
{
    let ghost old_ks = ks@;
    let mut i: usize = 0;
    while i < ks.len() && ks[i] < x
        invariant
            i <= ks@.len(),
            ks@ == old_ks,
            forall|j: int| 0 <= j < i ==> ks@[j] < x,
        decreases ks@.len() - i,
    {
        i += 1;
    }
    if i < ks.len() && ks[i] == x {
        proof {
            assert(old_ks.to_set().contains(x));
            assert(old_ks.to_set() =~= old_ks.to_set().insert(x));
        }
        return ;
    }
    ks.insert(i, x);
    proof {
        let new_ks = ks@;
        assert forall|a: int, b: int| 0 <= a < b < new_ks.len() implies new_ks[a] < new_ks[b] by {
            if a < i && b == i {
            } else if a == i && b > i {
                assert(new_ks[b] == old_ks[b - 1]);
                assert(!(old_ks[b - 1] < x));
                assert(old_ks[b - 1] != x) by {
                    if i < old_ks.len() && old_ks[i as int] == x {
                        assert(false);
                    }
                    if b - 1 > i {
                        assert(old_ks[i as int] < old_ks[b - 1]);
                        if old_ks[b - 1] == x {
                            assert(old_ks[i as int] < x);
                        }
                    }
                }
            } else if b < i {
                assert(new_ks[a] == old_ks[a] && new_ks[b] == old_ks[b]);
            } else if a > i {
                assert(new_ks[a] == old_ks[a - 1] && new_ks[b] == old_ks[b - 1]);
            } else if a < i && b > i {
                assert(new_ks[a] == old_ks[a] && new_ks[b] == old_ks[b - 1]);
                assert(old_ks[b - 1] >= x);
                assert(old_ks[b - 1] != x) by {
                    if b - 1 > i {
                        assert(old_ks[i as int] <= old_ks[b - 1]);
                    }
                }
                if b - 1 == i {
                    assert(old_ks[a] < x);
                    assert(x <= old_ks[b - 1]);
                }
            }
        }
        assert(strictly_sorted(new_ks));
        assert(new_ks.to_set() =~= old_ks.to_set().insert(x)) by {
            assert forall|y: u64| new_ks.to_set().contains(y) implies old_ks.to_set().insert(
                x,
            ).contains(y) by {
                let idx = choose|idx: int| 0 <= idx < new_ks.len() && new_ks[idx] == y;
                if idx < i {
                    assert(old_ks[idx] == y);
                } else if idx == i {
                } else {
                    assert(old_ks[idx - 1] == y);
                }
            }
            assert forall|y: u64| old_ks.to_set().insert(x).contains(y) implies new_ks
                .to_set().contains(y) by {
                if y == x {
                    assert(new_ks[i as int] == x);
                } else {
                    let idx = choose|idx: int| 0 <= idx < old_ks.len() && old_ks[idx] == y;
                    if idx < i {
                        assert(new_ks[idx] == y);
                    } else {
                        assert(new_ks[idx + 1] == y);
                    }
                }
            }
        }
    }
}

} // verus!
