//! The values a node has learned.

use std::collections::HashSet;
use vstd::prelude::*;
use vstd::std_specs::hash::spec_hash_keys_iter;
use vstd::std_specs::iter::IteratorSpec;

verus! {

broadcast use vstd::std_specs::hash::group_hash_axioms;

/// Adds every value of `incoming` to `values`.
pub fn merge_values(values: &mut HashSet<u64>, incoming: &HashSet<u64>)
    ensures
        final(values)@ == old(values)@.union(incoming@),
{
    let ghost before = values@;
    let ghost order = spec_hash_keys_iter(incoming).remaining().unref();
    let ghost mut seen = Set::<u64>::empty();
    for v in it: incoming.iter()
        invariant
            it.seq().unref() == order,
            values@ == before.union(seen),
            forall|j: int| 0 <= j < it.index() ==> seen.contains(#[trigger] order[j]),
            forall|x: u64| seen.contains(x) ==> order.contains(x),
    {
        assert(order[it.index()] == *v);
        values.insert(*v);
        proof {
            seen = seen.insert(*v);
        }
    }
    assert(order.to_set() == incoming@);
    assert(seen =~= incoming@);
}

/// A copy of `values`.
pub fn copy_values(values: &HashSet<u64>) -> (copy: HashSet<u64>)
    ensures
        copy@ == values@,
{
    let mut copy: HashSet<u64> = HashSet::new();
    merge_values(&mut copy, values);
    assert(copy@ =~= values@);
    copy
}

} // verus!
