//! The order that keys and priorities are compared by.
//!
//! The container compares keys with `==` and `>` and priorities with `<` and
//! `>`.  Everything it promises rests on these operators computing one strict
//! total order whose equality is plain equality of values; [`total_order`]
//! says exactly that, and the lemmas below are the only way the rest of the
//! crate uses it.

use core::cmp::Ordering;
use vstd::prelude::*;
use vstd::std_specs::cmp::{PartialEqSpec, PartialOrdIs, PartialOrdSpec};

verus! {

/// `a` comes strictly before `b` in the order of `T`.
pub open spec fn lt<T: PartialOrd>(a: T, b: T) -> bool {
    a.partial_cmp_spec(&b) == Some(Ordering::Less)
}

/// `a` comes before `b` or equals it.
pub open spec fn le<T: PartialOrd>(a: T, b: T) -> bool {
    !lt(b, a)
}

/// The comparison operators of `T` are deterministic and compute a strict
/// total order in which two values are equal exactly when they are the same
/// value.
#[verifier::opaque]
pub open spec fn total_order<T: PartialOrd>() -> bool {
    &&& T::obeys_eq_spec()
    &&& T::obeys_partial_cmp_spec()
    &&& forall|a: T, b: T| #[trigger] a.eq_spec(&b) <==> a == b
    &&& forall|a: T, b: T|
        (#[trigger] a.partial_cmp_spec(&b)) == Some(Ordering::Equal) <==> a == b
    &&& forall|a: T, b: T|
        (#[trigger] a.partial_cmp_spec(&b)) == Some(Ordering::Greater) <==> lt(b, a)
    &&& forall|a: T, b: T| #[trigger] lt(a, b) || a == b || lt(b, a)
    &&& forall|a: T, b: T| #[trigger] lt(a, b) ==> !lt(b, a)
    &&& forall|a: T, b: T, c: T| #[trigger] lt(a, b) && #[trigger] lt(b, c) ==> lt(a, c)
}

/// The operators `==`, `<` and `>` of `T` return what its specification of
/// them says.
pub open spec fn obeys<T: PartialOrd>() -> bool {
    T::obeys_eq_spec() && T::obeys_partial_cmp_spec()
}

/// What `==`, `<` and `>` return on two values of a totally ordered type.
pub proof fn lemma_operators<T: PartialOrd>(a: T, b: T)
    requires
        total_order::<T>(),
    ensures
        obeys::<T>(),
        a.eq_spec(&b) <==> a == b,
        a.is_lt(&b) <==> lt(a, b),
        a.is_gt(&b) <==> lt(b, a),
{
    reveal(total_order);
}

/// Of two values exactly one holds: the first is below, they are equal, or
/// the second is below.
pub proof fn lemma_trichotomy<T: PartialOrd>(a: T, b: T)
    requires
        total_order::<T>(),
    ensures
        lt(a, b) || a == b || lt(b, a),
        !(lt(a, b) && a == b),
        !(lt(b, a) && a == b),
        !(lt(a, b) && lt(b, a)),
{
    reveal(total_order);
}

/// `lt` is transitive.
pub proof fn lemma_lt_transitive<T: PartialOrd>(a: T, b: T, c: T)
    requires
        total_order::<T>(),
        lt(a, b),
        lt(b, c),
    ensures
        lt(a, c),
{
    reveal(total_order);
}

/// `le` is transitive, and mixes with `lt`.
pub proof fn lemma_le_transitive<T: PartialOrd>(a: T, b: T, c: T)
    requires
        total_order::<T>(),
        le(a, b),
        le(b, c),
    ensures
        le(a, c),
        lt(a, b) ==> lt(a, c),
        lt(b, c) ==> lt(a, c),
{
    lemma_trichotomy(a, b);
    lemma_trichotomy(b, c);
    lemma_trichotomy(a, c);
    if lt(a, b) && lt(b, c) {
        lemma_lt_transitive(a, b, c);
    }
    if lt(c, a) {
        if lt(a, b) {
            lemma_lt_transitive(c, a, b);
        }
        if lt(b, c) {
            lemma_lt_transitive(b, c, a);
        }
    }
}

/// The unsigned integers are totally ordered by their operators.
pub proof fn lemma_unsigned_total_order()
    ensures
        total_order::<u8>(),
        total_order::<u16>(),
        total_order::<u32>(),
        total_order::<u64>(),
        total_order::<u128>(),
        total_order::<usize>(),
{
    reveal(total_order);
}

/// The signed integers are totally ordered by their operators.
pub proof fn lemma_signed_total_order()
    ensures
        total_order::<i8>(),
        total_order::<i16>(),
        total_order::<i32>(),
        total_order::<i64>(),
        total_order::<i128>(),
        total_order::<isize>(),
{
    reveal(total_order);
}

} // verus!
