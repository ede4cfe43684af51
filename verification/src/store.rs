//! The byte-addressed backing store: get/put/delete of individual records
//! under full byte-string keys. Each live map instance owns the records
//! under its own namespace.

use vstd::prelude::*;
use crate::bytemap::ByteMap;

verus! {

/// A byte-addressed key-value store of records.
pub struct ByteStore {
    pub map: ByteMap,
}

impl ByteStore {
    /// The records, as a mathematical map from full keys to payloads.
    pub open spec fn contents(self) -> Map<Seq<u8>, Seq<u8>> {
        self.map.as_map()
    }

    pub open spec fn wf(self) -> bool {
        self.map.wf()
    }

    /// An empty store.
    pub fn new() -> (r: ByteStore)
        ensures
            r.wf(),
            r.contents() == Map::<Seq<u8>, Seq<u8>>::empty(),
    {
        ByteStore { map: ByteMap::new() }
    }

    /// Reads one record; never partial or stale.
    pub fn read(&self, key: &Vec<u8>) -> (r: Option<&Vec<u8>>)
        requires
            self.wf(),
        ensures
            match r {
                Some(v) => self.contents().contains_key(key@) && v@ == self.contents()[key@],
                None => !self.contents().contains_key(key@),
            },
    {
        self.map.get(key)
    }

    /// Writes one record, overwriting any record under the same key.
    pub fn write(&mut self, key: Vec<u8>, val: Vec<u8>)
        requires
            old(self).wf(),
        ensures
            final(self).wf(),
            final(self).contents() == old(self).contents().insert(key@, val@),
    {
        self.map.insert(key, val)
    }

    /// Deletes one record; deleting an absent record is a no-op.
    pub fn erase(&mut self, key: &Vec<u8>)
        requires
            old(self).wf(),
        ensures
            final(self).wf(),
            final(self).contents() == old(self).contents().remove(key@),
    {
        self.map.remove(key)
    }
}

} // verus!
