//! Scopes that give names fresh identifiers from a store.

use vstd::prelude::*;

verus! {
/// The identifiers that `scope` gives to the names that `before` did not
/// hold.
pub open spec fn fresh_ids<K>(before: Map<K, u64>, scope: Map<K, u64>) -> Set<u64> {
    Set::new(
        |v: u64|
            exists|k: K| #[trigger]
                scope.contains_key(k) && !before.contains_key(k) && scope[k] == v,
    )
}

/// `after` is `before` with entries for `ids` added, each holding `init`.
pub open spec fn grown_by<V>(before: Map<u64, V>, after: Map<u64, V>, ids: Set<u64>, init: V) -> bool {
    &&& forall|v: u64| #[trigger] after.contains_key(v) <==> before.contains_key(v) || ids.contains(v)
    &&& forall|v: u64| #[trigger] ids.contains(v) ==> !before.contains_key(v) && after[v] == init
    &&& forall|v: u64| #[trigger] before.contains_key(v) ==> after[v] == before[v]
}

/// No two names in the domain of `rho` get the same identifier.
pub open spec fn injective<K>(rho: Map<K, u64>) -> bool {
    forall|j: K, k: K|
        #![trigger rho[j], rho[k]]
        rho.contains_key(j) && rho.contains_key(k) && j != k ==> rho[j] != rho[k]
}

/// `scope` keeps what `before` held; what it holds besides are distinct
/// identifiers, of entries that `store1` has, holding `init`, and `store0`
/// had not.
pub open spec fn scope_grown<K, V>(
    before: Map<K, u64>,
    store0: Map<u64, V>,
    scope: Map<K, u64>,
    store1: Map<u64, V>,
    init: V,
) -> bool {
    &&& before.submap_of(scope)
    &&& forall|j: K, k: K|
        #![trigger scope[j], scope[k]]
        scope.contains_key(j) && scope.contains_key(k) && !before.contains_key(j)
            && !before.contains_key(k) && j != k ==> scope[j] != scope[k]
    &&& grown_by(store0, store1, fresh_ids(before, scope), init)
}

/// Growth after growth is growth.
pub proof fn lemma_scope_grown_trans<K, V>(
    s0: Map<K, u64>,
    v0: Map<u64, V>,
    s1: Map<K, u64>,
    v1: Map<u64, V>,
    s2: Map<K, u64>,
    v2: Map<u64, V>,
    init: V,
)
    requires
        scope_grown(s0, v0, s1, v1, init),
        scope_grown(s1, v1, s2, v2, init),
    ensures
        scope_grown(s0, v0, s2, v2, init),
{
    let f01 = fresh_ids(s0, s1);
    let f12 = fresh_ids(s1, s2);
    let f02 = fresh_ids(s0, s2);
    assert forall|v: u64| f02.contains(v) <==> f01.contains(v) || f12.contains(v) by {
        if f02.contains(v) {
            let k = choose|k: K| #[trigger] s2.contains_key(k) && !s0.contains_key(k) && s2[k] == v;
            if s1.contains_key(k) {
            } else {
                assert(f12.contains(v));
            }
        }
        if f01.contains(v) {
            let k = choose|k: K| #[trigger] s1.contains_key(k) && !s0.contains_key(k) && s1[k] == v;
            assert(s2.dom().contains(k) && s2[k] == v);
            assert(s0.dom().contains(k) == s0.contains_key(k));
        }
    }
    assert forall|j: K, k: K|
        #![trigger s2[j], s2[k]]
        s2.contains_key(j) && s2.contains_key(k) && !s0.contains_key(j) && !s0.contains_key(k) && j
            != k implies s2[j] != s2[k] by {
        if s1.contains_key(j) && !s1.contains_key(k) {
            assert(f12.contains(s2[k]));
        }
        if s1.contains_key(k) && !s1.contains_key(j) {
            assert(f12.contains(s2[j]));
        }
    }
    assert forall|k: K| #[trigger] s0.dom().contains(k) implies #[trigger] s2.dom().contains(k)
        && s0[k] == s2[k] by {
        assert(s1.dom().contains(k));
    }
    assert forall|v: u64| #[trigger] f02.contains(v) implies !v0.contains_key(v) && v2[v]
        == init by {
        if f01.contains(v) {
            assert(v1.contains_key(v));
        }
    }
    assert forall|v: u64| #[trigger] v0.contains_key(v) implies v2[v] == v0[v] by {
        assert(v1.contains_key(v));
    }
}
} // verus!
