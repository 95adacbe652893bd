//! A set of port numbers, kept in a `BTreeSet`.

use std::collections::BTreeSet;
use vstd::prelude::*;

verus! {

/// An empty set of ports.
pub fn new_port_set() -> (r: BTreeSet<u16>)
    ensures
        r@ == Set::<u16>::empty(),
{
    BTreeSet::new()
}

/// Adds `p`; the result is `true` when `p` was not in the set yet.
pub fn insert_port(s: &mut BTreeSet<u16>, p: u16) -> (r: bool)
    ensures
        final(s)@ == old(s)@.insert(p),
        r == !old(s)@.contains(p),
{
    broadcast use vstd::laws_cmp::group_laws_cmp;

    s.insert(p)
}

/// Whether `p` is in the set.
pub fn has_port_in(s: &BTreeSet<u16>, p: u16) -> (r: bool)
    ensures
        r == s@.contains(p),
{
    broadcast use vstd::laws_cmp::group_laws_cmp, vstd::std_specs::btree::group_btree_axioms;

    s.contains(&p)
}

} // verus!
