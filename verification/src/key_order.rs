//! The total order on queue keys, stated once over `Ord` so that the
//! containers of this crate can speak of "smaller" without naming how a key
//! type compares.
use std::cmp::Ordering;
use vstd::laws_cmp::obeys_cmp;
use vstd::laws_eq::obeys_concrete_eq;
use vstd::prelude::*;
use vstd::std_specs::cmp::OrdSpec;
use vstd::std_specs::cmp::PartialEqSpec;
use vstd::std_specs::cmp::PartialOrdSpec;

verus! {

/// `K` is totally ordered by its `Ord` impl, and two keys compare equal
/// exactly when they are the same value.
pub open spec fn lawful_key<K: Ord>() -> bool {
    obeys_cmp::<K>() && obeys_concrete_eq::<K>()
}

/// `a` sorts strictly before `b`.
pub open spec fn key_lt<K: Ord>(a: K, b: K) -> bool {
    a.cmp_spec(&b) == Ordering::Less
}

/// Outcome of comparing two keys.
#[derive(Copy, Clone, Debug, PartialEq, Eq, Structural)]
pub enum KeyOrder {
    Less,
    Equal,
    Greater,
}

/// Compares two keys with the key type's own `cmp`.
pub fn compare_keys<K: Ord>(a: &K, b: &K) -> (r: KeyOrder)
    requires
        lawful_key::<K>(),
    ensures
        r == KeyOrder::Less <==> key_lt(*a, *b),
        r == KeyOrder::Equal <==> *a == *b,
        r == KeyOrder::Greater <==> key_lt(*b, *a),
{
    proof {
        lemma_trichotomy(*a, *b);
        reveal(vstd::laws_cmp::obeys_cmp_ord);
        reveal(vstd::laws_cmp::obeys_cmp_partial_ord);
        reveal(vstd::laws_cmp::obeys_partial_cmp_spec_properties);
        reveal(obeys_concrete_eq);
        assert(a.partial_cmp_spec(b) == Some(a.cmp_spec(b)));
        assert(b.partial_cmp_spec(a) == Some(b.cmp_spec(a)));
    }
    match a.cmp(b) {
        Ordering::Less => KeyOrder::Less,
        Ordering::Equal => KeyOrder::Equal,
        Ordering::Greater => KeyOrder::Greater,
    }
}

/// Of two keys exactly one holds: the first is smaller, they are equal, or
/// the second is smaller.
pub proof fn lemma_trichotomy<K: Ord>(a: K, b: K)
    requires
        lawful_key::<K>(),
    ensures
        key_lt(a, b) || a == b || key_lt(b, a),
        !(key_lt(a, b) && a == b),
        !(key_lt(b, a) && a == b),
        !(key_lt(a, b) && key_lt(b, a)),
{
    reveal(vstd::laws_cmp::obeys_cmp_ord);
    reveal(vstd::laws_cmp::obeys_cmp_partial_ord);
    reveal(vstd::laws_cmp::obeys_partial_cmp_spec_properties);
    reveal(obeys_concrete_eq);
    assert(a.partial_cmp_spec(&b) == Some(a.cmp_spec(&b)));
    assert(b.partial_cmp_spec(&a) == Some(b.cmp_spec(&a)));
    assert(a.partial_cmp_spec(&a) == Some(a.cmp_spec(&a)));
    assert(a.eq_spec(&a));
    if key_lt(a, b) && key_lt(b, a) {
        assert(a.partial_cmp_spec(&b) == Some(Ordering::Less));
        assert(b.partial_cmp_spec(&a) == Some(Ordering::Less));
        assert(a.partial_cmp_spec(&a) == Some(Ordering::Less));
    }
}

/// The order is transitive.
pub proof fn lemma_transitive<K: Ord>(a: K, b: K, c: K)
    requires
        lawful_key::<K>(),
        key_lt(a, b),
        key_lt(b, c),
    ensures
        key_lt(a, c),
{
    reveal(vstd::laws_cmp::obeys_cmp_ord);
    reveal(vstd::laws_cmp::obeys_partial_cmp_spec_properties);
    assert(a.partial_cmp_spec(&b) == Some(a.cmp_spec(&b)));
    assert(b.partial_cmp_spec(&c) == Some(b.cmp_spec(&c)));
    assert(a.partial_cmp_spec(&c) == Some(a.cmp_spec(&c)));
}

/// Unsigned 64-bit keys are lawful, and their order is `<`.
pub proof fn lemma_u64_keys()
    ensures
        lawful_key::<u64>(),
        forall|a: u64, b: u64| #[trigger] key_lt(a, b) <==> a < b,
{
    broadcast use vstd::laws_cmp::group_laws_cmp;
    broadcast use vstd::laws_eq::group_laws_eq;
}

} // verus!
