use vstd::prelude::*;

use std::collections::{BTreeMap, HashMap};

verus! {

broadcast use vstd::std_specs::btree::group_btree_axioms, vstd::std_specs::hash::group_hash_axioms;

/// The trait for customizing the capture map: a sink that receives the
/// binding of each wildcard on a successful match.
pub trait Captures<W, E> {
    /// What the sink has bound, each binder to its matched element.
    spec fn bindings(&self) -> Map<W, E>;

    /// Binds `key` to `value`, replacing an earlier binding of `key`.
    fn insert(&mut self, key: W, value: E)
        ensures
            final(self).bindings() == old(self).bindings().insert(key, value),
    ;
}

impl Captures<u64, u64> for BTreeMap<u64, u64> {
    open spec fn bindings(&self) -> Map<u64, u64> {
        self@
    }

    fn insert(&mut self, key: u64, value: u64) {
        BTreeMap::insert(self, key, value);
    }
}

impl Captures<u64, u64> for HashMap<u64, u64> {
    open spec fn bindings(&self) -> Map<u64, u64> {
        self@
    }

    fn insert(&mut self, key: u64, value: u64) {
        HashMap::insert(self, key, value);
    }
}

} // verus!
