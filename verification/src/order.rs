//! The total order on keys.
//!
//! Keys are ordered by their `Ord` implementation. Everything the index proves
//! about itself rests on that implementation being a strict total order whose
//! notion of equality is plain equality of values, and on `clone` returning an
//! equal value. [`key_laws`] collects these demands; the integer types meet
//! them.

use std::cmp::Ordering;
use vstd::laws_cmp::obeys_cmp;
use vstd::laws_eq::obeys_concrete_eq;
use vstd::prelude::*;
use vstd::std_specs::cmp::{OrdSpec, PartialEqSpec, PartialOrdSpec};

verus! {

/// `a` sorts strictly before `b`.
pub open spec fn lt<K: Ord>(a: K, b: K) -> bool {
    a.cmp_spec(&b) == Ordering::Less
}

/// What the map demands of its key type: `Ord` is a total order that agrees
/// with `PartialOrd` and `PartialEq`, two keys compare equal only when they are
/// the same value, and a clone of a key is that key.
pub open spec fn key_laws<K: Ord + Clone>() -> bool {
    &&& obeys_cmp::<K>()
    &&& obeys_concrete_eq::<K>()
    &&& forall|a: K, b: K| #[trigger] call_ensures(K::clone, (&a,), b) ==> a == b
}

/// Under [`key_laws`], [`lt`] is a strict total order.
pub proof fn lemma_order<K: Ord + Clone>()
    requires
        key_laws::<K>(),
    ensures
        forall|a: K| !#[trigger] lt(a, a),
        forall|a: K, b: K| #[trigger] lt(a, b) ==> !lt(b, a),
        forall|a: K, b: K| #[trigger] lt(a, b) || a == b || lt(b, a),
        forall|a: K, b: K, c: K| #[trigger] lt(a, b) && #[trigger] lt(b, c) ==> lt(a, c),
{
    reveal(vstd::laws_cmp::obeys_cmp_ord);
    reveal(vstd::laws_cmp::obeys_cmp_partial_ord);
    reveal(vstd::laws_cmp::obeys_partial_cmp_spec_properties);
    reveal(vstd::laws_eq::obeys_concrete_eq);
    assert forall|a: K, b: K| #[trigger] lt(a, b) || a == b || lt(b, a) by {
        assert(a.partial_cmp_spec(&b) == Some(a.cmp_spec(&b)));
        assert(b.partial_cmp_spec(&a) == Some(b.cmp_spec(&a)));
    }
    assert forall|a: K, b: K| #[trigger] lt(a, b) implies !lt(b, a) by {
        assert(a.partial_cmp_spec(&b) == Some(a.cmp_spec(&b)));
        assert(b.partial_cmp_spec(&a) == Some(b.cmp_spec(&a)));
    }
    assert forall|a: K| !#[trigger] lt(a, a) by {
        assert(a.partial_cmp_spec(&a) == Some(a.cmp_spec(&a)));
    }
    assert forall|a: K, b: K, c: K| #[trigger] lt(a, b) && #[trigger] lt(b, c) implies lt(
        a,
        c,
    ) by {
        assert(a.partial_cmp_spec(&b) == Some(a.cmp_spec(&b)));
        assert(b.partial_cmp_spec(&c) == Some(b.cmp_spec(&c)));
        assert(a.partial_cmp_spec(&c) == Some(a.cmp_spec(&c)));
    }
}

/// Whether `a` sorts strictly before `b`.
pub fn key_lt<K: Ord + Clone>(a: &K, b: &K) -> (r: bool)
    requires
        key_laws::<K>(),
    ensures
        r == lt(*a, *b),
{
    proof {
        reveal(vstd::laws_cmp::obeys_cmp_ord);
    }
    match a.cmp(b) {
        Ordering::Less => true,
        Ordering::Equal => false,
        Ordering::Greater => false,
    }
}

/// Whether `a` and `b` are the same key.
pub fn key_eq<K: Ord + Clone>(a: &K, b: &K) -> (r: bool)
    requires
        key_laws::<K>(),
    ensures
        r == (*a == *b),
{
    proof {
        reveal(vstd::laws_cmp::obeys_cmp_ord);
        reveal(vstd::laws_cmp::obeys_cmp_partial_ord);
        reveal(vstd::laws_eq::obeys_concrete_eq);
        assert(a.partial_cmp_spec(b) == Some(a.cmp_spec(b)));
    }
    match a.cmp(b) {
        Ordering::Less => false,
        Ordering::Equal => true,
        Ordering::Greater => false,
    }
}

/// A second copy of `a`.
pub fn key_clone<K: Ord + Clone>(a: &K) -> (r: K)
    requires
        key_laws::<K>(),
    ensures
        r == *a,
{
    a.clone()
}

/// On `u8` keys [`key_laws`] holds and [`lt`] is `<`.
pub proof fn lemma_u8_keys()
    ensures
        key_laws::<u8>(),
        forall|a: u8, b: u8| #[trigger] lt(a, b) <==> a < b,
{
    broadcast use vstd::laws_cmp::group_laws_cmp;
    broadcast use vstd::laws_eq::group_laws_eq;

}

/// On `u32` keys [`key_laws`] holds and [`lt`] is `<`.
pub proof fn lemma_u32_keys()
    ensures
        key_laws::<u32>(),
        forall|a: u32, b: u32| #[trigger] lt(a, b) <==> a < b,
{
    broadcast use vstd::laws_cmp::group_laws_cmp;
    broadcast use vstd::laws_eq::group_laws_eq;

}

/// On `u64` keys [`key_laws`] holds and [`lt`] is `<`.
pub proof fn lemma_u64_keys()
    ensures
        key_laws::<u64>(),
        forall|a: u64, b: u64| #[trigger] lt(a, b) <==> a < b,
{
    broadcast use vstd::laws_cmp::group_laws_cmp;
    broadcast use vstd::laws_eq::group_laws_eq;

}

/// On `i32` keys [`key_laws`] holds and [`lt`] is `<`.
pub proof fn lemma_i32_keys()
    ensures
        key_laws::<i32>(),
        forall|a: i32, b: i32| #[trigger] lt(a, b) <==> a < b,
{
    broadcast use vstd::laws_cmp::group_laws_cmp;
    broadcast use vstd::laws_eq::group_laws_eq;

}

/// On `i64` keys [`key_laws`] holds and [`lt`] is `<`.
pub proof fn lemma_i64_keys()
    ensures
        key_laws::<i64>(),
        forall|a: i64, b: i64| #[trigger] lt(a, b) <==> a < b,
{
    broadcast use vstd::laws_cmp::group_laws_cmp;
    broadcast use vstd::laws_eq::group_laws_eq;

}

} // verus!
