//! What does not change when the members of a sequence are rearranged.

use vstd::prelude::*;
use vstd::multiset::Multiset;
use vstd::seq_lib::{to_multiset_build, to_multiset_insert, to_multiset_remove};

verus! {

/// Keeping the members that satisfy a predicate commutes with forgetting
/// their order.
pub proof fn lemma_filter_multiset<A>(s: Seq<A>, keep: spec_fn(A) -> bool)
    ensures
        s.filter(keep).to_multiset() == s.to_multiset().filter(keep),
    decreases s.len(),
{
    broadcast use vstd::multiset::group_multiset_axioms;

    if s.len() == 0 {
        reveal(Seq::filter);
        assert(s.to_multiset() =~= Multiset::<A>::empty()) by {
            s.to_multiset_ensures();
        }
        assert(s.filter(keep) =~= s);
        assert(s.filter(keep).to_multiset() =~= s.to_multiset().filter(keep));
    } else {
        let init = s.drop_last();
        let x = s.last();
        lemma_filter_multiset(init, keep);
        assert(s =~= init.push(x));
        init.lemma_filter_push(x, keep);
        to_multiset_build(init, x);
        if keep(x) {
            to_multiset_build(init.filter(keep), x);
        }
        assert(s.filter(keep).to_multiset() =~= s.to_multiset().filter(keep));
    }
}

/// Two arrangements of the same members keep the same members under a filter.
pub proof fn lemma_filter_ignores_order<A>(a: Seq<A>, b: Seq<A>, keep: spec_fn(A) -> bool)
    requires
        a.to_multiset() == b.to_multiset(),
    ensures
        a.filter(keep).to_multiset() == b.filter(keep).to_multiset(),
{
    lemma_filter_multiset(a, keep);
    lemma_filter_multiset(b, keep);
}

/// Two arrangements of the same members have the same images under a function.
pub proof fn lemma_map_ignores_order<A, B>(a: Seq<A>, b: Seq<A>, f: spec_fn(A) -> B)
    requires
        a.to_multiset() == b.to_multiset(),
    ensures
        a.map_values(f).to_multiset() == b.map_values(f).to_multiset(),
    decreases a.len(),
{
    broadcast use vstd::multiset::group_multiset_axioms;

    a.to_multiset_ensures();
    b.to_multiset_ensures();
    if a.len() == 0 {
        assert(a.map_values(f) =~= b.map_values(f));
    } else {
        let x = a.last();
        let init = a.drop_last();
        assert(a =~= init.push(x));
        to_multiset_build(init, x);
        assert(a.to_multiset().count(x) > 0);
        assert(b.contains(x));
        let j = choose|j: int| 0 <= j < b.len() && b[j] == x;
        let rest = b.remove(j);
        to_multiset_remove(b, j);
        assert(init.to_multiset() =~= rest.to_multiset());
        lemma_map_ignores_order(init, rest, f);
        assert(a.map_values(f) =~= init.map_values(f).push(f(x)));
        assert(b.map_values(f) =~= rest.map_values(f).insert(j, f(x)));
        to_multiset_build(init.map_values(f), f(x));
        to_multiset_insert(rest.map_values(f), j, f(x));
    }
}

} // verus!
