//! The call surface: three maps living in one backing store — a flat
//! string-keyed map, a flat numeric-keyed map, and an outer map from owner
//! identities to independent per-owner numeric maps. Each inner map lives
//! under a namespace of its own, derived from a generation counter that
//! increases on every creation, so a map removed and re-created never reuses
//! a namespace and never sees the removed map's records.

use vstd::prelude::*;
use vstd::pervasive::unreached;
use vstd::slice::slice_to_vec;
use vstd::bytes::{
    spec_u64_to_le_bytes, spec_u64_from_le_bytes, u64_to_le_bytes,
    lemma_auto_spec_u64_to_from_le_bytes,
};
use vstd::string::StrSliceExecFns;
use vstd::utf8::encode_utf8;
use crate::StoreError;
use crate::bytemap::ByteMap;
use crate::codec::{spec_save_num, spec_load_num};
use crate::nummap::{NumMap, NumEntry, num_entries_map, num_entry_views};
use crate::persist::num_views_sorted;
use crate::store::ByteStore;

verus! {

/// The map entry views denote, read from the last entry down.
pub open spec fn num_views_map(vs: Seq<(u128, Seq<u8>)>) -> Map<u128, Seq<u8>>
    decreases vs.len(),
{
    if vs.len() == 0 {
        Map::empty()
    } else {
        num_views_map(vs.drop_last()).insert(vs.last().0, vs.last().1)
    }
}

/// The views of an entry sequence denote the entry sequence's map.
pub proof fn lemma_views_map_bridge(e: Seq<NumEntry>)
    ensures
        num_views_map(num_entry_views(e)) == num_entries_map(e),
    decreases e.len(),
{
    if e.len() > 0 {
        assert(num_entry_views(e).drop_last() =~= num_entry_views(e.drop_last()));
        assert(num_entry_views(e).last() == (e.last().key, e.last().val@));
        lemma_views_map_bridge(e.drop_last());
    }
}

/// Namespace of the flat numeric map's record.
pub open spec fn ns_flat_numeric() -> Seq<u8> {
    seq![109u8]
}

/// Namespace of the flat string map's record.
pub open spec fn ns_flat_string() -> Seq<u8> {
    seq![116u8]
}

/// Namespace of the owner-index record.
pub open spec fn ns_owner_index() -> Seq<u8> {
    seq![110u8]
}

/// Namespace of the inner map created as generation `gen`.
pub open spec fn inner_ns(gen: u64) -> Seq<u8> {
    seq![105u8] + spec_u64_to_le_bytes(gen)
}

/// The shape of every inner-map namespace, disjoint by length from the
/// single-byte outer namespaces.
pub open spec fn valid_inner_ns(d: Seq<u8>) -> bool {
    d.len() == 9 && d[0] == 105u8
}

/// The generation a descriptor was created as.
pub open spec fn desc_gen(d: Seq<u8>) -> u64 {
    spec_u64_from_le_bytes(d.subrange(1, 9))
}

pub proof fn lemma_inner_ns(g: u64)
    ensures
        valid_inner_ns(inner_ns(g)),
        desc_gen(inner_ns(g)) == g,
{
    lemma_auto_spec_u64_to_from_le_bytes();
    assert(inner_ns(g).subrange(1, 9) =~= spec_u64_to_le_bytes(g));
}

fn make_ns_byte(b: u8) -> (r: Vec<u8>)
    ensures
        r@ == seq![b],
{
    let mut v: Vec<u8> = Vec::new();
    v.push(b);
    proof {
        assert(v@ =~= seq![b]);
    }
    v
}

fn make_inner_ns(gen: u64) -> (r: Vec<u8>)
    ensures
        r@ == inner_ns(gen),
{
    let mut v: Vec<u8> = Vec::new();
    v.push(105u8);
    let mut g = u64_to_le_bytes(gen);
    v.append(&mut g);
    proof {
        assert(v@ =~= inner_ns(gen));
    }
    v
}

/// The whole state: the backing store and the three maps created at
/// initialization, plus the generation counter for inner-map namespaces.
pub struct CollectionIssues {
    pub store: ByteStore,
    pub treemap_num: NumMap,
    pub treemap: ByteMap,
    pub nested_treemap: ByteMap,
    pub next_generation: u64,
}

impl CollectionIssues {
    /// The flat string map, keyed by the keys' UTF-8 bytes.
    pub open spec fn string_map(self) -> Map<Seq<u8>, Seq<u8>> {
        self.treemap.as_map()
    }

    /// The flat numeric map.
    pub open spec fn numeric_map(self) -> Map<u128, Seq<u8>> {
        self.treemap_num.as_map()
    }

    /// The outer map from owner identity bytes to inner-map descriptors.
    pub open spec fn owner_index(self) -> Map<Seq<u8>, Seq<u8>> {
        self.nested_treemap.as_map()
    }

    /// The owners that currently have an inner map.
    pub open spec fn owners(self) -> Set<Seq<u8>> {
        self.owner_index().dom()
    }

    /// The entry views stored for an owner's inner map; meaningful when the
    /// owner is present and the state is well formed.
    pub open spec fn stored_inner_views(self, o: Seq<u8>) -> Seq<(u128, Seq<u8>)> {
        match spec_load_num(self.store.contents()[self.owner_index()[o]]) {
            Some(vs) => vs,
            None => Seq::empty(),
        }
    }

    /// An owner's inner map, as the mathematical map it denotes.
    pub open spec fn owner_map(self, o: Seq<u8>) -> Map<u128, Seq<u8>> {
        num_views_map(self.stored_inner_views(o))
    }

    /// A present owner's descriptor is coherent: a valid namespace of a past
    /// generation whose record is in the store and decodes to sorted entries.
    pub open spec fn desc_ok(self, o: Seq<u8>) -> bool {
        let d = self.owner_index()[o];
        &&& valid_inner_ns(d)
        &&& desc_gen(d) < self.next_generation
        &&& self.store.contents().contains_key(d)
        &&& spec_load_num(self.store.contents()[d]) is Some
        &&& num_views_sorted(self.stored_inner_views(o))
    }

    /// Well-formedness of the whole state: the four structures keep their
    /// order invariants, every live descriptor is coherent, and no two
    /// owners share a namespace generation.
    pub open spec fn wf(self) -> bool {
        &&& self.store.wf()
        &&& self.treemap_num.wf()
        &&& self.treemap.wf()
        &&& self.nested_treemap.wf()
        &&& forall|o: Seq<u8>| self.owners().contains(o) ==> #[trigger] self.desc_ok(o)
        &&& forall|o1: Seq<u8>, o2: Seq<u8>|
            #![trigger self.owner_index()[o1], self.owner_index()[o2]]
            self.owners().contains(o1) && self.owners().contains(o2) && o1 != o2 ==> desc_gen(
                self.owner_index()[o1],
            ) != desc_gen(self.owner_index()[o2])
    }
}

/// The nested layer is untouched: the same owners hold the same inner maps.
pub open spec fn nested_unchanged(pre: CollectionIssues, post: CollectionIssues) -> bool {
    &&& post.owner_index() == pre.owner_index()
    &&& forall|o: Seq<u8>| pre.owners().contains(o) ==> #[trigger] post.owner_map(o)
        == pre.owner_map(o)
}

/// A state whose store differs from a well-formed one only at records
/// outside every inner namespace, with the owner index and counter intact,
/// is well formed with every inner map intact.
proof fn lemma_inner_records_preserved(pre: CollectionIssues, post: CollectionIssues)
    requires
        pre.wf(),
        post.store.wf(),
        post.treemap_num.wf(),
        post.treemap.wf(),
        post.nested_treemap.wf(),
        post.owner_index() == pre.owner_index(),
        post.next_generation == pre.next_generation,
        forall|k: Seq<u8>| valid_inner_ns(k) ==> #[trigger] post.store.contents().contains_key(k)
            == pre.store.contents().contains_key(k) && (pre.store.contents().contains_key(k)
            ==> post.store.contents()[k] == pre.store.contents()[k]),
    ensures
        post.wf(),
        nested_unchanged(pre, post),
{
    assert forall|o: Seq<u8>| post.owners().contains(o) implies #[trigger] post.desc_ok(o) by {
        assert(pre.desc_ok(o));
        let d = pre.owner_index()[o];
        assert(valid_inner_ns(d));
        assert(post.store.contents().contains_key(d));
        assert(post.store.contents()[d] == pre.store.contents()[d]);
        assert(post.stored_inner_views(o) == pre.stored_inner_views(o));
    }
    assert forall|o: Seq<u8>| pre.owners().contains(o) implies #[trigger] post.owner_map(o)
        == pre.owner_map(o) by {
        assert(pre.desc_ok(o));
        let d = pre.owner_index()[o];
        assert(valid_inner_ns(d));
        assert(post.store.contents().contains_key(d));
        assert(post.store.contents()[d] == pre.store.contents()[d]);
        assert(post.stored_inner_views(o) == pre.stored_inner_views(o));
    }
}

impl CollectionIssues {
    /// A fresh state: the three maps exist, are empty, and live under
    /// distinct fixed namespaces; no owner has an inner map yet.
    pub fn new() -> (r: CollectionIssues)
        ensures
            r.wf(),
            r.string_map() == Map::<Seq<u8>, Seq<u8>>::empty(),
            r.numeric_map() == Map::<u128, Seq<u8>>::empty(),
            r.owners() == Set::<Seq<u8>>::empty(),
            r.next_generation == 0,
    {
        let r = CollectionIssues {
            store: ByteStore::new(),
            treemap_num: NumMap::new(),
            treemap: ByteMap::new(),
            nested_treemap: ByteMap::new(),
            next_generation: 0,
        };
        proof {
            assert(r.owners() =~= Set::<Seq<u8>>::empty());
        }
        r
    }

    /// Binds `key` to `val` in the flat string map, overwriting in place,
    /// and persists the map's record.
    pub fn insert_treemap_string(&mut self, key: String, val: String)
        requires
            old(self).wf(),
        ensures
            final(self).wf(),
            final(self).string_map() == old(self).string_map().insert(
                encode_utf8(key@),
                encode_utf8(val@),
            ),
            final(self).numeric_map() == old(self).numeric_map(),
            nested_unchanged(*old(self), *final(self)),
            final(self).next_generation == old(self).next_generation,
    {
        let kb = key.as_str().as_bytes_vec();
        let vb = val.as_str().as_bytes_vec();
        self.treemap.insert(kb, vb);
        let ns = make_ns_byte(116);
        self.treemap.save(&ns, &mut self.store);
        proof {
            assert(ns@ == ns_flat_string());
            assert forall|k: Seq<u8>| valid_inner_ns(k) implies #[trigger] self.store.contents()
                .contains_key(k) == old(self).store.contents().contains_key(k) && (old(
                self,
            ).store.contents().contains_key(k) ==> self.store.contents()[k] == old(
                self,
            ).store.contents()[k]) by {
                assert(k.len() == 9);
                assert(k != ns@);
            }
            lemma_inner_records_preserved(*old(self), *self);
        }
    }

    /// Unbinds `key` in the flat string map; absent keys are a silent no-op.
    pub fn remove_treemap_string(&mut self, key: String)
        requires
            old(self).wf(),
        ensures
            final(self).wf(),
            final(self).string_map() == old(self).string_map().remove(encode_utf8(key@)),
            final(self).numeric_map() == old(self).numeric_map(),
            nested_unchanged(*old(self), *final(self)),
            final(self).next_generation == old(self).next_generation,
    {
        let kb = key.as_str().as_bytes_vec();
        self.treemap.remove(&kb);
        let ns = make_ns_byte(116);
        self.treemap.save(&ns, &mut self.store);
        proof {
            assert(ns@ == ns_flat_string());
            assert forall|k: Seq<u8>| valid_inner_ns(k) implies #[trigger] self.store.contents()
                .contains_key(k) == old(self).store.contents().contains_key(k) && (old(
                self,
            ).store.contents().contains_key(k) ==> self.store.contents()[k] == old(
                self,
            ).store.contents()[k]) by {
                assert(k.len() == 9);
                assert(k != ns@);
            }
            lemma_inner_records_preserved(*old(self), *self);
        }
    }

    /// Binds `key` to `val` in the flat numeric map, overwriting in place,
    /// and persists the map's record.
    pub fn insert_treemap_num(&mut self, key: u128, val: String)
        requires
            old(self).wf(),
        ensures
            final(self).wf(),
            final(self).numeric_map() == old(self).numeric_map().insert(key, encode_utf8(val@)),
            final(self).string_map() == old(self).string_map(),
            nested_unchanged(*old(self), *final(self)),
            final(self).next_generation == old(self).next_generation,
    {
        let vb = val.as_str().as_bytes_vec();
        self.treemap_num.insert(key, vb);
        let ns = make_ns_byte(109);
        self.treemap_num.save(&ns, &mut self.store);
        proof {
            assert(ns@ == ns_flat_numeric());
            assert forall|k: Seq<u8>| valid_inner_ns(k) implies #[trigger] self.store.contents()
                .contains_key(k) == old(self).store.contents().contains_key(k) && (old(
                self,
            ).store.contents().contains_key(k) ==> self.store.contents()[k] == old(
                self,
            ).store.contents()[k]) by {
                assert(k.len() == 9);
                assert(k != ns@);
            }
            lemma_inner_records_preserved(*old(self), *self);
        }
    }

    /// Unbinds `key` in the flat numeric map; absent keys are a silent no-op.
    pub fn remove_treemap_num(&mut self, key: u128)
        requires
            old(self).wf(),
        ensures
            final(self).wf(),
            final(self).numeric_map() == old(self).numeric_map().remove(key),
            final(self).string_map() == old(self).string_map(),
            nested_unchanged(*old(self), *final(self)),
            final(self).next_generation == old(self).next_generation,
    {
        self.treemap_num.remove(key);
        let ns = make_ns_byte(109);
        self.treemap_num.save(&ns, &mut self.store);
        proof {
            assert(ns@ == ns_flat_numeric());
            assert forall|k: Seq<u8>| valid_inner_ns(k) implies #[trigger] self.store.contents()
                .contains_key(k) == old(self).store.contents().contains_key(k) && (old(
                self,
            ).store.contents().contains_key(k) ==> self.store.contents()[k] == old(
                self,
            ).store.contents()[k]) by {
                assert(k.len() == 9);
                assert(k != ns@);
            }
            lemma_inner_records_preserved(*old(self), *self);
        }
    }

    /// Inserts `(key, val)` into `owner`'s own numeric map. An owner without
    /// a map gets an empty one first, under a namespace derived from a fresh
    /// generation; the mutated inner map and its descriptor are persisted
    /// back on every insert, since a loaded map that is mutated but not
    /// saved would be lost.
    pub fn insert_nested_treemap_num(&mut self, owner: String, key: u128, val: String)
        requires
            old(self).wf(),
            old(self).next_generation < u64::MAX,
        ensures
            final(self).wf(),
            final(self).string_map() == old(self).string_map(),
            final(self).numeric_map() == old(self).numeric_map(),
            final(self).owners() == old(self).owners().insert(encode_utf8(owner@)),
            final(self).owner_map(encode_utf8(owner@)) == (if old(self).owners().contains(
                encode_utf8(owner@),
            ) {
                old(self).owner_map(encode_utf8(owner@))
            } else {
                Map::<u128, Seq<u8>>::empty()
            }).insert(key, encode_utf8(val@)),
            forall|o2: Seq<u8>|
                old(self).owners().contains(o2) && o2 != encode_utf8(owner@)
                    ==> #[trigger] final(self).owner_map(o2) == old(self).owner_map(o2),
            final(self).next_generation == (if old(self).owners().contains(encode_utf8(owner@)) {
                old(self).next_generation as int
            } else {
                old(self).next_generation + 1
            }),
    {
        let ghost ob = encode_utf8(owner@);
        let ghost was_present = old(self).owners().contains(ob);
        let owner_b = owner.as_str().as_bytes_vec();
        let val_b = val.as_str().as_bytes_vec();
        let existing: Option<Vec<u8>> = match self.nested_treemap.get(&owner_b) {
            Some(d) => Some(slice_to_vec(d.as_slice())),
            None => None,
        };
        let (ns, mut inner): (Vec<u8>, NumMap) = match existing {
            Some(d) => {
                proof {
                    assert(was_present);
                    assert(old(self).desc_ok(ob));
                    assert(d@ == old(self).owner_index()[ob]);
                }
                let m = match NumMap::load(&d, &self.store) {
                    Ok(m) => m,
                    Err(_) => {
                        proof {
                            assert(false);
                        }
                        unreached()
                    },
                };
                proof {
                    assert(old(self).stored_inner_views(ob) == m.entries_view());
                    lemma_views_map_bridge(m.entries@);
                    assert(old(self).owner_map(ob) == m.as_map());
                }
                (d, m)
            },
            None => {
                proof {
                    assert(!was_present);
                }
                let g = self.next_generation;
                self.next_generation = g + 1;
                proof {
                    lemma_inner_ns(g);
                }
                (make_inner_ns(g), NumMap::new())
            },
        };
        let ghost base = if was_present {
            old(self).owner_map(ob)
        } else {
            Map::<u128, Seq<u8>>::empty()
        };
        proof {
            assert(inner.as_map() == base);
            assert(valid_inner_ns(ns@));
            if was_present {
                assert(desc_gen(ns@) < old(self).next_generation);
                assert(self.next_generation == old(self).next_generation);
            } else {
                assert(desc_gen(ns@) == old(self).next_generation);
                assert(self.next_generation == old(self).next_generation + 1);
            }
        }
        inner.insert(key, val_b);
        inner.save(&ns, &mut self.store);
        let desc = slice_to_vec(ns.as_slice());
        self.nested_treemap.insert(owner_b, desc);
        let outer = make_ns_byte(110);
        self.nested_treemap.save(&outer, &mut self.store);
        proof {
            assert(outer@ == ns_owner_index());
            let pre = *old(self);
            let post = *self;
            assert(post.owner_index() == pre.owner_index().insert(ob, ns@));
            assert(post.owners() =~= pre.owners().insert(ob));
            assert(ns@ != seq![110u8]);
            assert(post.store.contents()[ns@] == spec_save_num(inner.entries_view()));
            assert(post.stored_inner_views(ob) == inner.entries_view());
            lemma_views_map_bridge(inner.entries@);
            assert(post.owner_map(ob) == inner.as_map());
            assert(post.owner_map(ob) == base.insert(key, encode_utf8(val@)));
            assert(num_views_sorted(inner.entries_view())) by {
                let vs = inner.entries_view();
                assert forall|i: int, j: int| 0 <= i < j < vs.len() implies vs[i].0 < vs[j].0 by {
                    assert(vs[i] == (inner.entries@[i].key, inner.entries@[i].val@));
                    assert(vs[j] == (inner.entries@[j].key, inner.entries@[j].val@));
                }
            }
            assert forall|o2: Seq<u8>| pre.owners().contains(o2) && o2 != ob implies {
                &&& post.owner_index()[o2] == pre.owner_index()[o2]
                &&& post.store.contents()[pre.owner_index()[o2]] == pre.store.contents()[
                    pre.owner_index()[o2]]
                &&& #[trigger] post.owner_map(o2) == pre.owner_map(o2)
            } by {
                assert(pre.desc_ok(o2));
                let d2 = pre.owner_index()[o2];
                if was_present {
                    assert(pre.owners().contains(ob));
                    assert(desc_gen(d2) != desc_gen(pre.owner_index()[ob]));
                    assert(d2 != ns@);
                } else {
                    assert(desc_gen(d2) < pre.next_generation);
                    assert(d2 != ns@);
                }
                assert(d2.len() == 9);
                assert(d2 != seq![110u8]);
                assert(post.stored_inner_views(o2) == pre.stored_inner_views(o2));
            }
            assert forall|o: Seq<u8>| post.owners().contains(o) implies #[trigger] post.desc_ok(
                o,
            ) by {
                if o == ob {
                    assert(desc_gen(ns@) < post.next_generation);
                } else {
                    assert(pre.desc_ok(o));
                    assert(desc_gen(pre.owner_index()[o]) < post.next_generation);
                }
            }
            assert forall|o1: Seq<u8>, o2: Seq<u8>|
                #![trigger post.owner_index()[o1], post.owner_index()[o2]]
                post.owners().contains(o1) && post.owners().contains(o2) && o1 != o2 implies
                desc_gen(post.owner_index()[o1]) != desc_gen(post.owner_index()[o2]) by {
                if o1 != ob && o2 != ob {
                    assert(desc_gen(pre.owner_index()[o1]) != desc_gen(pre.owner_index()[o2]));
                } else if o1 == ob {
                    assert(pre.owners().contains(o2));
                    assert(pre.desc_ok(o2));
                    if was_present {
                        assert(desc_gen(pre.owner_index()[ob]) != desc_gen(pre.owner_index()[o2]));
                    }
                } else {
                    assert(pre.owners().contains(o1));
                    assert(pre.desc_ok(o1));
                    if was_present {
                        assert(desc_gen(pre.owner_index()[ob]) != desc_gen(pre.owner_index()[o1]));
                    }
                }
            }
            assert(post.wf());
        }
    }

    /// Removes `key` from `owner`'s numeric map, persisting the change. This
    /// layer's policy is strict: an owner with no map, or a key not in the
    /// owner's map, fails with `NotFound` and the whole state is untouched.
    pub fn remove_nested_treemap_num(&mut self, owner: String, key: u128) -> (r: Result<
        (),
        StoreError,
    >)
        requires
            old(self).wf(),
        ensures
            final(self).wf(),
            final(self).string_map() == old(self).string_map(),
            final(self).numeric_map() == old(self).numeric_map(),
            final(self).next_generation == old(self).next_generation,
            match r {
                Ok(()) => {
                    &&& old(self).owners().contains(encode_utf8(owner@))
                    &&& old(self).owner_map(encode_utf8(owner@)).contains_key(key)
                    &&& final(self).owners() == old(self).owners()
                    &&& final(self).owner_map(encode_utf8(owner@)) == old(self).owner_map(
                        encode_utf8(owner@),
                    ).remove(key)
                    &&& forall|o2: Seq<u8>|
                        old(self).owners().contains(o2) && o2 != encode_utf8(owner@)
                            ==> #[trigger] final(self).owner_map(o2) == old(self).owner_map(o2)
                },
                Err(e) => {
                    &&& e == StoreError::NotFound
                    &&& (!old(self).owners().contains(encode_utf8(owner@)) || !old(
                        self,
                    ).owner_map(encode_utf8(owner@)).contains_key(key))
                    &&& *final(self) == *old(self)
                },
            },
    {
        let ghost ob = encode_utf8(owner@);
        let owner_b = owner.as_str().as_bytes_vec();
        let existing: Option<Vec<u8>> = match self.nested_treemap.get(&owner_b) {
            Some(d) => Some(slice_to_vec(d.as_slice())),
            None => None,
        };
        let ns = match existing {
            Some(d) => d,
            None => {
                return Err(StoreError::NotFound);
            },
        };
        proof {
            assert(old(self).desc_ok(ob));
            assert(ns@ == old(self).owner_index()[ob]);
        }
        let mut inner = match NumMap::load(&ns, &self.store) {
            Ok(m) => m,
            Err(_) => {
                proof {
                    assert(false);
                }
                unreached()
            },
        };
        proof {
            assert(old(self).stored_inner_views(ob) == inner.entries_view());
            lemma_views_map_bridge(inner.entries@);
            assert(old(self).owner_map(ob) == inner.as_map());
        }
        if !inner.contains_key(key) {
            return Err(StoreError::NotFound);
        }
        inner.remove(key);
        inner.save(&ns, &mut self.store);
        let desc = slice_to_vec(ns.as_slice());
        self.nested_treemap.insert(owner_b, desc);
        let outer = make_ns_byte(110);
        self.nested_treemap.save(&outer, &mut self.store);
        proof {
            assert(outer@ == ns_owner_index());
            let pre = *old(self);
            let post = *self;
            assert(post.owner_index() =~= pre.owner_index());
            assert(post.owners() =~= pre.owners());
            assert(ns@ != seq![110u8]);
            assert(post.store.contents()[ns@] == spec_save_num(inner.entries_view()));
            assert(post.stored_inner_views(ob) == inner.entries_view());
            lemma_views_map_bridge(inner.entries@);
            assert(post.owner_map(ob) == inner.as_map());
            assert(num_views_sorted(inner.entries_view())) by {
                let vs = inner.entries_view();
                assert forall|i: int, j: int| 0 <= i < j < vs.len() implies vs[i].0 < vs[j].0 by {
                    assert(vs[i] == (inner.entries@[i].key, inner.entries@[i].val@));
                    assert(vs[j] == (inner.entries@[j].key, inner.entries@[j].val@));
                }
            }
            assert forall|o2: Seq<u8>| pre.owners().contains(o2) && o2 != ob implies {
                &&& post.store.contents()[pre.owner_index()[o2]] == pre.store.contents()[
                    pre.owner_index()[o2]]
                &&& #[trigger] post.owner_map(o2) == pre.owner_map(o2)
            } by {
                assert(pre.desc_ok(o2));
                assert(pre.owners().contains(ob));
                let d2 = pre.owner_index()[o2];
                assert(desc_gen(d2) != desc_gen(pre.owner_index()[ob]));
                assert(d2 != ns@);
                assert(d2.len() == 9);
                assert(d2 != seq![110u8]);
                assert(post.stored_inner_views(o2) == pre.stored_inner_views(o2));
            }
            assert forall|o: Seq<u8>| post.owners().contains(o) implies #[trigger] post.desc_ok(
                o,
            ) by {
                assert(pre.desc_ok(o));
            }
            assert(post.wf());
        }
        Ok(())
    }

    /// Deletes `owner`'s descriptor from the outer map, or fails with
    /// `NotFound` when the owner has none, leaving the state untouched.
    /// The inner map's own records are deliberately not deleted: only the
    /// outer pointer to them goes away, and the generation scheme keeps the
    /// orphaned records unreachable forever.
    pub fn remove_nested_treemap_me(&mut self, owner: String) -> (r: Result<(), StoreError>)
        requires
            old(self).wf(),
        ensures
            final(self).wf(),
            final(self).string_map() == old(self).string_map(),
            final(self).numeric_map() == old(self).numeric_map(),
            final(self).next_generation == old(self).next_generation,
            match r {
                Ok(()) => {
                    &&& old(self).owners().contains(encode_utf8(owner@))
                    &&& final(self).owners() == old(self).owners().remove(encode_utf8(owner@))
                    &&& forall|o2: Seq<u8>|
                        old(self).owners().contains(o2) && o2 != encode_utf8(owner@)
                            ==> #[trigger] final(self).owner_map(o2) == old(self).owner_map(o2)
                },
                Err(e) => {
                    &&& e == StoreError::NotFound
                    &&& !old(self).owners().contains(encode_utf8(owner@))
                    &&& *final(self) == *old(self)
                },
            },
    {
        let ghost ob = encode_utf8(owner@);
        let owner_b = owner.as_str().as_bytes_vec();
        if !self.nested_treemap.contains_key(&owner_b) {
            return Err(StoreError::NotFound);
        }
        self.nested_treemap.remove(&owner_b);
        let outer = make_ns_byte(110);
        self.nested_treemap.save(&outer, &mut self.store);
        proof {
            assert(outer@ == ns_owner_index());
            let pre = *old(self);
            let post = *self;
            assert(post.owner_index() == pre.owner_index().remove(ob));
            assert(post.owners() =~= pre.owners().remove(ob));
            assert forall|o2: Seq<u8>| pre.owners().contains(o2) && o2 != ob implies {
                &&& post.store.contents()[pre.owner_index()[o2]] == pre.store.contents()[
                    pre.owner_index()[o2]]
                &&& #[trigger] post.owner_map(o2) == pre.owner_map(o2)
            } by {
                assert(pre.desc_ok(o2));
                let d2 = pre.owner_index()[o2];
                assert(d2.len() == 9);
                assert(d2 != seq![110u8]);
                assert(post.stored_inner_views(o2) == pre.stored_inner_views(o2));
            }
            assert forall|o: Seq<u8>| post.owners().contains(o) implies #[trigger] post.desc_ok(
                o,
            ) by {
                assert(pre.desc_ok(o));
                let d = pre.owner_index()[o];
                assert(d.len() == 9);
                assert(d != seq![110u8]);
                assert(post.stored_inner_views(o) == pre.stored_inner_views(o));
            }
            assert(post.wf());
        }
        Ok(())
    }

    /// Looks a key up in `owner`'s numeric map; an owner without a map has
    /// no keys.
    pub fn get_nested_treemap_num(&self, owner: &String, key: u128) -> (r: Option<Vec<u8>>)
        requires
            self.wf(),
        ensures
            match r {
                Some(v) => {
                    &&& self.owners().contains(encode_utf8(owner@))
                    &&& self.owner_map(encode_utf8(owner@)).contains_key(key)
                    &&& v@ == self.owner_map(encode_utf8(owner@))[key]
                },
                None => !self.owners().contains(encode_utf8(owner@)) || !self.owner_map(
                    encode_utf8(owner@),
                ).contains_key(key),
            },
    {
        let ghost ob = encode_utf8(owner@);
        let owner_b = owner.as_str().as_bytes_vec();
        let existing: Option<Vec<u8>> = match self.nested_treemap.get(&owner_b) {
            Some(d) => Some(slice_to_vec(d.as_slice())),
            None => None,
        };
        let ns = match existing {
            Some(d) => d,
            None => {
                return None;
            },
        };
        proof {
            assert(self.desc_ok(ob));
            assert(ns@ == self.owner_index()[ob]);
        }
        let inner = match NumMap::load(&ns, &self.store) {
            Ok(m) => m,
            Err(_) => {
                proof {
                    assert(false);
                }
                unreached()
            },
        };
        proof {
            assert(self.stored_inner_views(ob) == inner.entries_view());
            lemma_views_map_bridge(inner.entries@);
            assert(self.owner_map(ob) == inner.as_map());
        }
        match inner.get(key) {
            Some(v) => Some(slice_to_vec(v.as_slice())),
            None => None,
        }
    }

    /// The keys of `owner`'s numeric map, in increasing order; empty when
    /// the owner has no map.
    pub fn nested_keys(&self, owner: &String) -> (r: Vec<u128>)
        requires
            self.wf(),
        ensures
            self.owners().contains(encode_utf8(owner@)) ==> r@ == self.stored_inner_views(
                encode_utf8(owner@),
            ).map_values(|p: (u128, Seq<u8>)| p.0),
            !self.owners().contains(encode_utf8(owner@)) ==> r@.len() == 0,
            forall|i: int, j: int| 0 <= i < j < r@.len() ==> r@[i] < r@[j],
    {
        let ghost ob = encode_utf8(owner@);
        let owner_b = owner.as_str().as_bytes_vec();
        let existing: Option<Vec<u8>> = match self.nested_treemap.get(&owner_b) {
            Some(d) => Some(slice_to_vec(d.as_slice())),
            None => None,
        };
        let ns = match existing {
            Some(d) => d,
            None => {
                return Vec::new();
            },
        };
        proof {
            assert(self.desc_ok(ob));
            assert(ns@ == self.owner_index()[ob]);
        }
        let inner = match NumMap::load(&ns, &self.store) {
            Ok(m) => m,
            Err(_) => {
                proof {
                    assert(false);
                }
                unreached()
            },
        };
        let r = inner.keys();
        proof {
            assert(self.stored_inner_views(ob) == inner.entries_view());
            assert(r@ =~= self.stored_inner_views(ob).map_values(|p: (u128, Seq<u8>)| p.0)) by {
                let vs = inner.entries_view();
                assert(r@.len() == vs.len());
                assert forall|i: int| 0 <= i < vs.len() implies r@[i] == vs.map_values(
                    |p: (u128, Seq<u8>)| p.0,
                )[i] by {
                    assert(vs[i] == (inner.entries@[i].key, inner.entries@[i].val@));
                    assert(r@[i] == inner.entries@[i].key);
                }
            }
            assert forall|i: int, j: int| 0 <= i < j < r@.len() implies r@[i] < r@[j] by {
                assert(r@[i] == inner.entries@[i].key);
                assert(r@[j] == inner.entries@[j].key);
            }
        }
        r
    }

    /// Looks a key up in the flat string map.
    pub fn get_treemap_string(&self, key: &String) -> (r: Option<Vec<u8>>)
        requires
            self.wf(),
        ensures
            match r {
                Some(v) => self.string_map().contains_key(encode_utf8(key@)) && v@
                    == self.string_map()[encode_utf8(key@)],
                None => !self.string_map().contains_key(encode_utf8(key@)),
            },
    {
        let kb = key.as_str().as_bytes_vec();
        match self.treemap.get(&kb) {
            Some(v) => Some(slice_to_vec(v.as_slice())),
            None => None,
        }
    }

    /// Looks a key up in the flat numeric map.
    pub fn get_treemap_num(&self, key: u128) -> (r: Option<Vec<u8>>)
        requires
            self.wf(),
        ensures
            match r {
                Some(v) => self.numeric_map().contains_key(key) && v@ == self.numeric_map()[key],
                None => !self.numeric_map().contains_key(key),
            },
    {
        match self.treemap_num.get(key) {
            Some(v) => Some(slice_to_vec(v.as_slice())),
            None => None,
        }
    }
}

} // verus!

