//! A hash map from names to 32-bit indices.
use vstd::prelude::*;

verus! {

/// A hash map over names, held in a `hashbrown::HashMap`.
#[verifier::external_body]
#[derive(Debug)]
pub struct NameMap {
    map: hashbrown::HashMap<Vec<u8>, u32>,
}

/// What a `NameMap` holds: each name with its index.
pub uninterp spec fn entries(map: NameMap) -> Map<Seq<u8>, u32>;

impl NameMap {
    /// Calls `hashbrown::HashMap::new`, which makes a map without entries.
    #[verifier::external_body]
    pub(crate) fn new() -> (r: NameMap)
        ensures
            forall|name: Seq<u8>| !entries(r).contains_key(name),
    {
        NameMap { map: hashbrown::HashMap::new() }
    }

    /// Calls `hashbrown::HashMap::get`, which finds the value stored under
    /// an equal key. Two `Vec<u8>` keys are equal when their bytes are.
    #[verifier::external_body]
    pub(crate) fn get(&self, name: &[u8]) -> (r: Option<u32>)
        ensures
            r == if entries(*self).contains_key(name@) {
                Some(entries(*self)[name@])
            } else {
                None::<u32>
            },
    {
        self.map.get(name).copied()
    }

    /// Calls `hashbrown::HashMap::insert`, which stores the value under the
    /// key, in place of the value that an equal key had.
    #[verifier::external_body]
    pub(crate) fn insert(&mut self, name: Vec<u8>, value: u32)
        ensures
            entries(*final(self)) == entries(*old(self)).insert(name@, value),
    {
        self.map.insert(name, value);
    }
}

} // verus!
