use vstd::prelude::*;
use vstd::relations::injective_on;
use vstd::set_lib::*;

verus! {

/// `perm` lists each index of `0..n` exactly once.
pub open spec fn is_permutation(perm: Seq<int>, n: int) -> bool {
    &&& perm.len() == n
    &&& forall|k: int| 0 <= k < n ==> 0 <= #[trigger] perm[k] < n
    &&& forall|k1: int, k2: int|
        0 <= k1 < n && 0 <= k2 < n && k1 != k2 ==> #[trigger] perm[k1] != #[trigger] perm[k2]
}

/// The inverse of a permutation: for each index, where it appears in `perm`.
pub open spec fn inverse(perm: Seq<int>, n: int) -> Seq<int> {
    Seq::new(n as nat, |v: int| choose|k: int| 0 <= k < n && perm[k] == v)
}

/// Some position of `perm` holds `v`.
pub open spec fn reaches(perm: Seq<int>, n: int, v: int) -> bool {
    exists|k: int| 0 <= k < n && #[trigger] perm[k] == v
}

/// A permutation reaches every index of its range.
pub proof fn lemma_permutation_onto(perm: Seq<int>, n: int)
    requires
        is_permutation(perm, n),
    ensures
        forall|v: int| 0 <= v < n ==> #[trigger] reaches(perm, n, v),
{
    let dom = set_int_range(0, n);
    let f = |k: int| perm[k];
    let img = dom.map(f);
    lemma_int_range(0, n);
    assert(injective_on(f, dom));
    lemma_map_size(dom, img, f);
    assert(img.subset_of(dom));
    lemma_subset_equality(img, dom);
    assert forall|v: int| 0 <= v < n implies #[trigger] reaches(perm, n, v) by {
        assert(dom.contains(v));
        assert(img.contains(v));
        let k = choose|k: int| dom.contains(k) && f(k) == v;
        assert(perm[k] == v);
    }
}

/// The inverse of a permutation is a permutation, and undoes it on both sides.
pub proof fn lemma_inverse(perm: Seq<int>, n: int)
    requires
        is_permutation(perm, n),
    ensures
        is_permutation(inverse(perm, n), n),
        forall|v: int| 0 <= v < n ==> #[trigger] perm[inverse(perm, n)[v]] == v,
        forall|k: int| 0 <= k < n ==> #[trigger] inverse(perm, n)[perm[k]] == k,
{
    lemma_permutation_onto(perm, n);
    let inv = inverse(perm, n);
    assert forall|v: int| 0 <= v < n implies 0 <= #[trigger] inv[v] < n && perm[inv[v]] == v by {
        assert(reaches(perm, n, v));
    }
    assert forall|k: int| 0 <= k < n implies #[trigger] inv[perm[k]] == k by {
        let v = perm[k];
        assert(perm[inv[v]] == v);
    }
    assert forall|v1: int, v2: int|
        0 <= v1 < n && 0 <= v2 < n && v1 != v2 implies #[trigger] inv[v1] != #[trigger] inv[v2] by {
        assert(perm[inv[v1]] == v1);
        assert(perm[inv[v2]] == v2);
    }
}

/// Following one permutation by another gives a permutation.
pub proof fn lemma_compose(outer: Seq<int>, inner: Seq<int>, n: int)
    requires
        is_permutation(outer, n),
        is_permutation(inner, n),
    ensures
        is_permutation(Seq::new(n as nat, |k: int| outer[inner[k]]), n),
{
    let c = Seq::new(n as nat, |k: int| outer[inner[k]]);
    assert forall|k: int| 0 <= k < n implies 0 <= #[trigger] c[k] < n by {
        assert(0 <= inner[k] < n);
    }
    assert forall|k1: int, k2: int|
        0 <= k1 < n && 0 <= k2 < n && k1 != k2 implies #[trigger] c[k1] != #[trigger] c[k2] by {
        assert(inner[k1] != inner[k2]);
    }
}

/// The identity permutation.
pub proof fn lemma_identity(n: int)
    requires
        0 <= n,
    ensures
        is_permutation(Seq::new(n as nat, |k: int| k), n),
{
}

} // verus!
