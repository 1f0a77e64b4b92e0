//! The order that priorities must carry.
//!
//! A priority type only has to implement `PartialOrd`. What the map does to its
//! entries is defined for any such type whose comparisons are functions of
//! their operands. That the heap stays in order is promised only where "not
//! less than" chains: where the order is a strict weak order. Every total order
//! is one; so is any order in which "incomparable" behaves like "tied". Under
//! an order that is merely partial, entries that do not compare may end up one
//! above the other either way.

use core::cmp::Ordering;
use vstd::laws_cmp::obeys_cmp;
use vstd::laws_cmp::obeys_cmp_ord;
use vstd::laws_cmp::obeys_cmp_partial_ord;
use vstd::laws_cmp::obeys_partial_cmp_spec_properties;
use vstd::laws_eq::obeys_concrete_eq;
use vstd::laws_eq::obeys_eq_spec_properties;
use vstd::prelude::*;
use vstd::std_specs::cmp::OrdSpec;
use vstd::std_specs::cmp::PartialEqSpec;
use vstd::std_specs::cmp::PartialOrdSpec;

verus! {

/// `a` is strictly below `b`: what `a < b` computes.
pub open spec fn less<P: PartialOrd>(a: P, b: P) -> bool {
    a.partial_cmp_spec(&b) == Some(Ordering::Less)
}

/// `a` is strictly above `b`: what `a > b` computes.
pub open spec fn greater<P: PartialOrd>(a: P, b: P) -> bool {
    a.partial_cmp_spec(&b) == Some(Ordering::Greater)
}

/// The comparison operators of `P` are functions of their operands: `<` computes
/// `less` and `>` computes `greater`.
pub open spec fn comparable<P: PartialOrd>() -> bool {
    P::obeys_partial_cmp_spec()
}

/// The comparison operators of `P` compute `less` and `greater`, and `less` is a
/// strict weak order: asymmetric, and whenever `a` is below `c`, every `b` is
/// above `a` or below `c`.
pub open spec fn weakly_ordered<P: PartialOrd>() -> bool {
    &&& P::obeys_partial_cmp_spec()
    &&& forall|a: P, b: P| #[trigger] greater(a, b) <==> less(b, a)
    &&& forall|a: P, b: P| #[trigger] less(a, b) ==> !less(b, a)
    &&& forall|a: P, b: P, c: P|
        #![trigger less(a, b), less(b, c)]
        less(a, c) ==> less(a, b) || less(b, c)
}

/// A strict weak order without ties: two priorities of which neither is below
/// the other are the same value. This is a total order.
pub open spec fn totally_ordered<P: PartialOrd>() -> bool {
    &&& weakly_ordered::<P>()
    &&& forall|a: P, b: P| !(#[trigger] less(a, b)) && !less(b, a) ==> a == b
}

/// "Not below" chains: if `a` is not below `b` and `b` is not below `c`, then `a`
/// is not below `c`.
pub proof fn lemma_not_less_chains<P: PartialOrd>(a: P, b: P, c: P)
    requires
        weakly_ordered::<P>(),
        !less(a, b),
        !less(b, c),
    ensures
        !less(a, c),
{
}

/// `less` is transitive.
pub proof fn lemma_less_transitive<P: PartialOrd>(a: P, b: P, c: P)
    requires
        weakly_ordered::<P>(),
        less(a, b),
        less(b, c),
    ensures
        less(a, c),
{
    assert(!less(c, b));
    if !less(a, c) {
        assert(less(a, b) ==> less(a, c) || less(c, b));
    }
}

/// Every total order that follows the comparison laws of `vstd` is a strict weak
/// order. The integer types are such orders.
pub proof fn lemma_total_order_is_weak<P: Ord>()
    requires
        obeys_cmp::<P>(),
    ensures
        weakly_ordered::<P>(),
{
    reveal(obeys_cmp_partial_ord);
    reveal(obeys_cmp_ord);
    reveal(obeys_partial_cmp_spec_properties);
    reveal(obeys_eq_spec_properties);
    assert forall|a: P, b: P, c: P|
        #![trigger less(a, b), less(b, c)]
        less(a, c) implies less(a, b) || less(b, c) by {
        // every pair compares, so `a` is above or equal to `b`, and `b` to `c`
        assert(a.partial_cmp_spec(&b) == Some(a.cmp_spec(&b)));
        assert(b.partial_cmp_spec(&c) == Some(b.cmp_spec(&c)));
        if !less(a, b) && !less(b, c) {
            if a.cmp_spec(&b) == Ordering::Equal && b.cmp_spec(&c) == Ordering::Equal {
                assert(a.eq_spec(&b) && b.eq_spec(&c));
                assert(a.eq_spec(&c));
            } else if b.cmp_spec(&c) == Ordering::Greater {
                // a < c and c < b would put a below b
                assert(c.partial_cmp_spec(&b) == Some(Ordering::Less));
            } else {
                // c > a and a > b would put c above b
                assert(c.partial_cmp_spec(&a) == Some(Ordering::Greater));
            }
        }
    }
}

/// A total order of `vstd` whose `==` is equality of values has no ties. The
/// integer types are such orders.
pub proof fn lemma_total_order_has_no_ties<P: Ord>()
    requires
        obeys_cmp::<P>(),
        obeys_concrete_eq::<P>(),
    ensures
        totally_ordered::<P>(),
{
    lemma_total_order_is_weak::<P>();
    reveal(obeys_cmp_partial_ord);
    reveal(obeys_cmp_ord);
    reveal(obeys_partial_cmp_spec_properties);
    reveal(obeys_concrete_eq);
    assert forall|a: P, b: P| !(#[trigger] less(a, b)) && !less(b, a) implies a == b by {
        let ab = a.cmp_spec(&b);
        assert(a.partial_cmp_spec(&b) == Some(ab));
        if ab == Ordering::Greater {
            assert(b.partial_cmp_spec(&a) == Some(Ordering::Less));
        }
        assert(ab == Ordering::Equal);
        assert(a.eq_spec(&b));
    }
}

} // verus!
