//! Ordering a vector of keys.

use crate::counting::sorted;
use vstd::prelude::*;

verus! {

/// Puts the vector in ascending order with `sort` of the standard library's
/// slices. Taken on trust from its documentation: afterwards the slice is in
/// ascending order, and it holds the values it held before, each as often as
/// before. On integers the order is total, so the call does not panic.
#[verifier::external_body]
pub(crate) fn sort_ascending(v: &mut Vec<i64>)
    ensures
        sorted(final(v)@),
        final(v)@.to_multiset() == old(v)@.to_multiset(),
{
    v.sort();
}

} // verus!
