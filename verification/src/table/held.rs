//! The keys whose writes are in the hands of the log.
use std::collections::HashSet;

use vstd::prelude::*;

use crate::types::PlayerId;

verus! {

broadcast use vstd::std_specs::hash::group_hash_axioms;

/// The keys whose writes have begun and not ended.
pub struct HeldKeys {
    keys: HashSet<u128>,
}

impl View for HeldKeys {
    type V = Set<u128>;

    closed spec fn view(&self) -> Set<u128> {
        self.keys@
    }
}

impl HeldKeys {
    pub fn new() -> (r: Self)
        ensures
            r@ == Set::<u128>::empty(),
    {
        HeldKeys { keys: HashSet::new() }
    }

    /// A write of the key has begun and not ended.
    pub fn holds(&self, key: &PlayerId) -> (r: bool)
        ensures
            r == self@.contains(key.0),
    {
        self.keys.contains(&key.0)
    }

    /// A write of the key begins.
    pub fn hold(&mut self, key: &PlayerId)
        ensures
            final(self)@ == old(self)@.insert(key.0),
    {
        self.keys.insert(key.0);
    }

    /// A write of the key ends.
    pub fn release(&mut self, key: &PlayerId)
        ensures
            final(self)@ == old(self)@.remove(key.0),
    {
        self.keys.remove(&key.0);
    }
}

} // verus!
