//! The natural order of an element type, as the sorts see it.

use vstd::prelude::*;
use vstd::std_specs::cmp::OrdSpec;
use core::cmp::Ordering;

verus! {

/// `a` comes strictly after `b`.
pub open spec fn gt<T: Ord>(a: T, b: T) -> bool {
    a.cmp_spec(&b) == Ordering::Greater
}

/// `a` may stand before `b`.
pub open spec fn le<T: Ord>(a: T, b: T) -> bool {
    !gt(a, b)
}

/// `Ord::cmp` on `T` is a total order: it is the one `cmp_spec` describes,
/// `Equal` means equal values, `Less` and `Greater` are mirror images, and
/// `Less` is transitive.
#[verifier::opaque]
pub open spec fn total_order<T: Ord>() -> bool {
    &&& T::obeys_cmp_spec()
    &&& forall|a: T, b: T| #[trigger] a.cmp_spec(&b) == Ordering::Equal <==> a == b
    &&& forall|a: T, b: T|
        #[trigger] a.cmp_spec(&b) == Ordering::Less <==> b.cmp_spec(&a) == Ordering::Greater
    &&& forall|a: T, b: T, c: T|
        a.cmp_spec(&b) == Ordering::Less && #[trigger] b.cmp_spec(&c) == Ordering::Less
            ==> #[trigger] a.cmp_spec(&c) == Ordering::Less
}

/// Every element stands before each element after it.
pub open spec fn sorted<T: Ord>(s: Seq<T>) -> bool {
    forall|i: int, j: int| 0 <= i < j < s.len() ==> le(#[trigger] s[i], #[trigger] s[j])
}

/// A total order is the one `cmp_spec` describes.
pub proof fn lemma_obeys<T: Ord>()
    requires
        total_order::<T>(),
    ensures
        T::obeys_cmp_spec(),
{
    reveal(total_order);
}

/// Every value may stand before itself.
pub proof fn lemma_le_refl<T: Ord>(a: T)
    requires
        total_order::<T>(),
    ensures
        le(a, a),
{
    reveal(total_order);
    assert(a.cmp_spec(&a) == Ordering::Equal);
}

/// Of two values, one may stand before the other.
pub proof fn lemma_le_total<T: Ord>(a: T, b: T)
    requires
        total_order::<T>(),
    ensures
        gt(a, b) ==> le(b, a),
        le(a, b) || le(b, a),
{
    reveal(total_order);
    if gt(a, b) {
        assert(b.cmp_spec(&a) == Ordering::Less);
    }
}

/// Standing before is transitive.
pub proof fn lemma_le_trans<T: Ord>(a: T, b: T, c: T)
    requires
        total_order::<T>(),
        le(a, b),
        le(b, c),
    ensures
        le(a, c),
{
    reveal(total_order);
    let ab = a.cmp_spec(&b);
    let bc = b.cmp_spec(&c);
    if ab == Ordering::Equal {
        assert(a == b);
    } else if bc == Ordering::Equal {
        assert(b == c);
    } else {
        assert(ab == Ordering::Less);
        assert(bc == Ordering::Less);
        assert(a.cmp_spec(&c) == Ordering::Less);
    }
}

/// Two values that may each stand before the other are equal.
pub proof fn lemma_le_antisym<T: Ord>(a: T, b: T)
    requires
        total_order::<T>(),
        le(a, b),
        le(b, a),
    ensures
        a == b,
{
    reveal(total_order);
    if a.cmp_spec(&b) == Ordering::Less {
        assert(b.cmp_spec(&a) == Ordering::Greater);
    }
}

/// The order of `u32` is total.
pub proof fn lemma_total_order_u32()
    ensures
        total_order::<u32>(),
{
    reveal(total_order);
}

/// On `u32`, standing before is `<=`.
pub proof fn lemma_le_u32(a: u32, b: u32)
    ensures
        le(a, b) <==> a <= b,
{
}

} // verus!
