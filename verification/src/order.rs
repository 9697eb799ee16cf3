use vstd::multiset::Multiset;
use vstd::prelude::*;
use vstd::std_specs::cmp::PartialOrdSpec;
use core::cmp::Ordering;

verus! {

/// `a` is strictly below `b` under the order that `partial_cmp` encodes.
pub open spec fn event_lt<E: PartialOrd>(a: E, b: E) -> bool {
    a.partial_cmp_spec(&b) == Some(Ordering::Less)
}

/// The comparator of `E` is a total order on priorities, and `partial_cmp`
/// is known to follow its specification.  Two events may compare as equal
/// without being the same value: such events have equal priority, and the
/// engine picks among them arbitrarily.
pub open spec fn valid_order<E: PartialOrd>() -> bool {
    &&& E::obeys_partial_cmp_spec()
    &&& forall|a: E, b: E| (#[trigger] a.partial_cmp_spec(&b)) is Some
    &&& forall|a: E, b: E|
        (#[trigger] a.partial_cmp_spec(&b)) == Some(Ordering::Less) <==> b.partial_cmp_spec(&a)
            == Some(Ordering::Greater)
    &&& forall|a: E, b: E, c: E|
        #![trigger event_lt(a, b), event_lt(b, c)]
        event_lt(a, b) && event_lt(b, c) ==> event_lt(a, c)
}

/// `e` occurs in `q` and no element of `q` is strictly greater than `e`.
pub open spec fn is_max_of<E: PartialOrd>(e: E, q: Multiset<E>) -> bool {
    &&& q.count(e) > 0
    &&& forall|f: E| #[trigger] q.count(f) > 0 ==> !event_lt(e, f)
}

/// Under a valid order no element is strictly below itself.
pub proof fn lemma_lt_irreflexive<E: PartialOrd>(a: E)
    requires
        valid_order::<E>(),
    ensures
        !event_lt(a, a),
{
    if a.partial_cmp_spec(&a) == Some(Ordering::Less) {
        assert(a.partial_cmp_spec(&a) == Some(Ordering::Greater));
    }
}

} // verus!
