//! The ordering on keys that the tree relies on.
use vstd::prelude::*;
use core::cmp::Ordering;
use vstd::std_specs::cmp::OrdSpec;

verus! {

/// `a` comes strictly before `b` in the key order.
pub open spec fn key_lt<K: Ord>(a: K, b: K) -> bool {
    a.cmp_spec(&b) == Ordering::Less
}

/// `K`'s `Ord` impl behaves as a strict total order whose equality is
/// equality of values: `cmp` follows `cmp_spec`, `Equal` means equal,
/// `Less` and `Greater` mirror each other, and `Less` is transitive.
pub open spec fn total_order<K: Ord>() -> bool {
    &&& K::obeys_cmp_spec()
    &&& forall|a: K, b: K| #[trigger] a.cmp_spec(&b) == Ordering::Equal <==> a == b
    &&& forall|a: K, b: K|
        #[trigger] a.cmp_spec(&b) == Ordering::Less <==> b.cmp_spec(&a) == Ordering::Greater
    &&& forall|a: K, b: K, c: K|
        #[trigger] key_lt(a, b) && #[trigger] key_lt(b, c) ==> key_lt(a, c)
}

/// `a < b` and `b < a` never hold together.
pub proof fn lemma_lt_asym<K: Ord>(a: K, b: K)
    requires
        total_order::<K>(),
        key_lt(a, b),
    ensures
        !key_lt(b, a),
        a != b,
{
}

} // verus!
