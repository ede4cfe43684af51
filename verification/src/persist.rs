//! The load-mutate-save discipline: a map instance is reconstructed from its
//! namespace's record in the backing store, mutated in memory, and written
//! back explicitly; a mutation that is not saved is lost.

use vstd::prelude::*;
use vstd::slice::slice_to_vec;
use vstd::std_specs::vec::axiom_spec_len;
use crate::StoreError;
use crate::bytemap::ByteMap;
use crate::codec::{
    enc_entries, spec_save_num, spec_load_num, encode_byte_entries, encode_num_entries,
    decode_num_entries, lemma_load_save_num, num_views_fit,
};
use crate::nummap::{NumMap, NumEntry, num_entries_sorted, num_entry_views};
use crate::store::ByteStore;

verus! {

/// Strictly increasing keys, stated of entry views.
pub open spec fn num_views_sorted(vs: Seq<(u128, Seq<u8>)>) -> bool {
    forall|i: int, j: int| 0 <= i < j < vs.len() ==> vs[i].0 < vs[j].0
}

proof fn lemma_num_chain(s: Seq<NumEntry>, i: int, j: int)
    requires
        forall|a: int| 0 <= a < s.len() - 1 ==> #[trigger] s[a].key < s[a + 1].key,
        0 <= i < j < s.len(),
    ensures
        s[i].key < s[j].key,
    decreases j - i,
{
    if j > i + 1 {
        lemma_num_chain(s, i, j - 1);
    }
}

/// A sequence whose adjacent keys increase is sorted throughout.
proof fn lemma_num_adjacent_sorted(s: Seq<NumEntry>)
    requires
        forall|a: int| 0 <= a < s.len() - 1 ==> #[trigger] s[a].key < s[a + 1].key,
    ensures
        num_entries_sorted(s),
{
    assert forall|i: int, j: int| 0 <= i < j < s.len() implies s[i].key < s[j].key by {
        lemma_num_chain(s, i, j);
    }
}

/// Whether the entries stand in strictly increasing key order.
fn check_num_sorted(es: &Vec<NumEntry>) -> (r: bool)
    ensures
        r == num_entries_sorted(es@),
{
    let mut i: usize = 1;
    while i < es.len()
        invariant
            1 <= i,
            i <= es@.len() || es@.len() == 0,
            forall|a: int| 0 <= a < i - 1 ==> #[trigger] es@[a].key < es@[a + 1].key,
        decreases es@.len() - i,
    {
        if es[i - 1].key >= es[i].key {
            return false;
        }
        i = i + 1;
    }
    proof {
        lemma_num_adjacent_sorted(es@);
    }
    true
}

impl NumMap {
    /// Writes this map's record under `ns`, replacing the previous record of
    /// that namespace and touching no other record.
    pub fn save(&self, ns: &Vec<u8>, store: &mut ByteStore)
        requires
            old(store).wf(),
        ensures
            final(store).wf(),
            final(store).contents() == old(store).contents().insert(
                ns@,
                spec_save_num(self.entries_view()),
            ),
            spec_load_num(spec_save_num(self.entries_view())) == Some(self.entries_view()),
    {
        proof {
            let vs = self.entries_view();
            assert forall|i: int| 0 <= i < vs.len() implies vs[i].1.len() < 0x10000000000000000 by {
                assert(vs[i] == (self.entries@[i].key, self.entries@[i].val@));
                axiom_spec_len(&self.entries@[i].val);
            }
            assert(num_views_fit(vs));
            lemma_load_save_num(vs);
        }
        let bytes = encode_num_entries(&self.entries);
        store.write(slice_to_vec(ns.as_slice()), bytes);
    }

    /// Reconstructs the map stored under `ns`. A missing record, a record
    /// that does not decode, or decoded entries out of order are structural
    /// corruption of that namespace: the operation fails and nothing is read
    /// partially.
    pub fn load(ns: &Vec<u8>, store: &ByteStore) -> (r: Result<NumMap, StoreError>)
        requires
            store.wf(),
        ensures
            match r {
                Ok(m) => {
                    &&& m.wf()
                    &&& store.contents().contains_key(ns@)
                    &&& spec_load_num(store.contents()[ns@]) == Some(m.entries_view())
                    &&& num_views_sorted(m.entries_view())
                },
                Err(e) => {
                    &&& e == StoreError::StructuralCorruption
                    &&& (!store.contents().contains_key(ns@) || match spec_load_num(
                        store.contents()[ns@],
                    ) {
                        None => true,
                        Some(vs) => !num_views_sorted(vs),
                    })
                },
            },
    {
        let bytes = match store.read(ns) {
            None => {
                return Err(StoreError::StructuralCorruption);
            },
            Some(b) => b,
        };
        let entries = match decode_num_entries(bytes) {
            None => {
                return Err(StoreError::StructuralCorruption);
            },
            Some(es) => es,
        };
        if check_num_sorted(&entries) {
            proof {
                let vs = num_entry_views(entries@);
                assert forall|i: int, j: int| 0 <= i < j < vs.len() implies vs[i].0 < vs[j].0 by {
                    assert(vs[i] == (entries@[i].key, entries@[i].val@));
                    assert(vs[j] == (entries@[j].key, entries@[j].val@));
                }
            }
            Ok(NumMap { entries })
        } else {
            proof {
                let vs = num_entry_views(entries@);
                let (i, j) = choose|i: int, j: int|
                    0 <= i < j < entries@.len() && !(entries@[i].key < entries@[j].key);
                assert(vs[i] == (entries@[i].key, entries@[i].val@));
                assert(vs[j] == (entries@[j].key, entries@[j].val@));
                assert(!num_views_sorted(vs));
            }
            Err(StoreError::StructuralCorruption)
        }
    }
}

impl ByteMap {
    /// Writes this map's record under `ns`, replacing the previous record of
    /// that namespace and touching no other record.
    pub fn save(&self, ns: &Vec<u8>, store: &mut ByteStore)
        requires
            old(store).wf(),
        ensures
            final(store).wf(),
            final(store).contents() == old(store).contents().insert(
                ns@,
                enc_entries(self.entries_view()),
            ),
    {
        let bytes = encode_byte_entries(&self.entries);
        store.write(slice_to_vec(ns.as_slice()), bytes);
    }
}

} // verus!
