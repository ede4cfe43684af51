//! The laws the store obeys, stated over the views that the operations'
//! contracts speak of and proved for every input.

use vstd::prelude::*;
use vstd::utf8::{encode_utf8, encode_utf8_decode_utf8};
use crate::bytemap::{ByteMap, lemma_byte_canonical, lemma_byte_entries_map_size};
use crate::contract::CollectionIssues;
use crate::lex::lex_lt;
use crate::nummap::{NumMap, lemma_num_canonical, lemma_num_entries_map_size,
    lemma_num_entries_map_contains_exists};

verus! {

/// Distinct character sequences have distinct UTF-8 encodings.
pub proof fn lemma_encode_utf8_injective(a: Seq<char>, b: Seq<char>)
    requires
        a != b,
    ensures
        encode_utf8(a) != encode_utf8(b),
{
    if encode_utf8(a) == encode_utf8(b) {
        encode_utf8_decode_utf8(a);
        encode_utf8_decode_utf8(b);
    }
}

/// Idempotent overwrite: inserting the same key twice leaves exactly one
/// entry, holding the latest value, and the second insert does not change
/// the number of entries.
pub proof fn lemma_idempotent_overwrite_num(
    m0: NumMap,
    m1: NumMap,
    m2: NumMap,
    k: u128,
    v1: Seq<u8>,
    v2: Seq<u8>,
)
    requires
        m0.wf(),
        m1.wf(),
        m2.wf(),
        m1.as_map() == m0.as_map().insert(k, v1),
        m2.as_map() == m1.as_map().insert(k, v2),
    ensures
        m2.as_map() == m0.as_map().insert(k, v2),
        m2.as_map()[k] == v2,
        m2.entries_view().len() == m1.entries_view().len(),
        m2.as_map().dom() == m0.as_map().dom().insert(k),
{
    assert(m2.as_map() =~= m0.as_map().insert(k, v2));
    assert(m2.as_map().dom() =~= m0.as_map().dom().insert(k));
    lemma_num_entries_map_size(m1.entries@);
    lemma_num_entries_map_size(m2.entries@);
    assert(m1.as_map().dom() =~= m2.as_map().dom());
}

/// Idempotent overwrite for the string-keyed map.
pub proof fn lemma_idempotent_overwrite_byte(
    m0: ByteMap,
    m1: ByteMap,
    m2: ByteMap,
    k: Seq<u8>,
    v1: Seq<u8>,
    v2: Seq<u8>,
)
    requires
        m0.wf(),
        m1.wf(),
        m2.wf(),
        m1.as_map() == m0.as_map().insert(k, v1),
        m2.as_map() == m1.as_map().insert(k, v2),
    ensures
        m2.as_map() == m0.as_map().insert(k, v2),
        m2.as_map()[k] == v2,
        m2.entries_view().len() == m1.entries_view().len(),
        m2.as_map().dom() == m0.as_map().dom().insert(k),
{
    assert(m2.as_map() =~= m0.as_map().insert(k, v2));
    assert(m2.as_map().dom() =~= m0.as_map().dom().insert(k));
    crate::bytemap::lemma_byte_sorted_distinct(m1.entries@);
    crate::bytemap::lemma_byte_sorted_distinct(m2.entries@);
    lemma_byte_entries_map_size(m1.entries@);
    lemma_byte_entries_map_size(m2.entries@);
    assert(m1.as_map().dom() =~= m2.as_map().dom());
}

/// Insert-remove-insert stability: after insert(k, v1), remove(k),
/// insert(k, v2), the map holds v2 under k and the whole structure is
/// indistinguishable, entry by entry in traversal order, from one that had
/// k bound to v2 by a single insert.
pub proof fn lemma_insert_remove_insert_num(
    m0: NumMap,
    m1: NumMap,
    m2: NumMap,
    m3: NumMap,
    alone: NumMap,
    k: u128,
    v1: Seq<u8>,
    v2: Seq<u8>,
)
    requires
        m0.wf(),
        m1.wf(),
        m2.wf(),
        m3.wf(),
        alone.wf(),
        m1.as_map() == m0.as_map().insert(k, v1),
        m2.as_map() == m1.as_map().remove(k),
        m3.as_map() == m2.as_map().insert(k, v2),
        alone.as_map() == m0.as_map().insert(k, v2),
    ensures
        m3.as_map() == alone.as_map(),
        m3.entries_view() == alone.entries_view(),
        m3.as_map()[k] == v2,
{
    assert(m3.as_map() =~= alone.as_map());
    lemma_num_canonical(m3.entries@, alone.entries@);
}

/// Insert-remove-insert stability for the string-keyed map.
pub proof fn lemma_insert_remove_insert_byte(
    m0: ByteMap,
    m1: ByteMap,
    m2: ByteMap,
    m3: ByteMap,
    alone: ByteMap,
    k: Seq<u8>,
    v1: Seq<u8>,
    v2: Seq<u8>,
)
    requires
        m0.wf(),
        m1.wf(),
        m2.wf(),
        m3.wf(),
        alone.wf(),
        m1.as_map() == m0.as_map().insert(k, v1),
        m2.as_map() == m1.as_map().remove(k),
        m3.as_map() == m2.as_map().insert(k, v2),
        alone.as_map() == m0.as_map().insert(k, v2),
    ensures
        m3.as_map() == alone.as_map(),
        m3.entries_view() == alone.entries_view(),
        m3.as_map()[k] == v2,
{
    assert(m3.as_map() =~= alone.as_map());
    lemma_byte_canonical(m3.entries@, alone.entries@);
}

/// Owner isolation: when owner `oa` inserts `(k, va)` and then the distinct
/// owner `ob` inserts `(k, vb)`, each owner's map holds its own value under
/// `k`; neither observes the other's.
pub proof fn lemma_owner_isolation(
    s0: CollectionIssues,
    s1: CollectionIssues,
    s2: CollectionIssues,
    oa: Seq<char>,
    ob: Seq<char>,
    k: u128,
    va: Seq<u8>,
    vb: Seq<u8>,
)
    requires
        oa != ob,
        s1.owners() == s0.owners().insert(encode_utf8(oa)),
        s1.owner_map(encode_utf8(oa)) == (if s0.owners().contains(encode_utf8(oa)) {
            s0.owner_map(encode_utf8(oa))
        } else {
            Map::<u128, Seq<u8>>::empty()
        }).insert(k, va),
        forall|o: Seq<u8>|
            s0.owners().contains(o) && o != encode_utf8(oa) ==> #[trigger] s1.owner_map(o)
                == s0.owner_map(o),
        s2.owners() == s1.owners().insert(encode_utf8(ob)),
        s2.owner_map(encode_utf8(ob)) == (if s1.owners().contains(encode_utf8(ob)) {
            s1.owner_map(encode_utf8(ob))
        } else {
            Map::<u128, Seq<u8>>::empty()
        }).insert(k, vb),
        forall|o: Seq<u8>|
            s1.owners().contains(o) && o != encode_utf8(ob) ==> #[trigger] s2.owner_map(o)
                == s1.owner_map(o),
    ensures
        s2.owner_map(encode_utf8(oa))[k] == va,
        s2.owner_map(encode_utf8(ob))[k] == vb,
{
    lemma_encode_utf8_injective(oa, ob);
    assert(s1.owners().contains(encode_utf8(oa)));
    assert(s2.owner_map(encode_utf8(oa)) == s1.owner_map(encode_utf8(oa)));
}

/// Re-creation safety: an owner inserts `(k, v)`, removes their whole map,
/// and inserts `(k, v)` again. The final state shows exactly one entry for
/// that owner — the freshly derived namespace leaves no residue of the
/// deleted map — and no other owner's map, nor the set of other owners,
/// is disturbed at any step.
pub proof fn lemma_recreation_safety(
    s0: CollectionIssues,
    s1: CollectionIssues,
    s2: CollectionIssues,
    s3: CollectionIssues,
    o: Seq<char>,
    k: u128,
    v: Seq<u8>,
)
    requires
        s1.owners() == s0.owners().insert(encode_utf8(o)),
        forall|o2: Seq<u8>|
            s0.owners().contains(o2) && o2 != encode_utf8(o) ==> #[trigger] s1.owner_map(o2)
                == s0.owner_map(o2),
        s2.owners() == s1.owners().remove(encode_utf8(o)),
        forall|o2: Seq<u8>|
            s1.owners().contains(o2) && o2 != encode_utf8(o) ==> #[trigger] s2.owner_map(o2)
                == s1.owner_map(o2),
        s3.owners() == s2.owners().insert(encode_utf8(o)),
        s3.owner_map(encode_utf8(o)) == (if s2.owners().contains(encode_utf8(o)) {
            s2.owner_map(encode_utf8(o))
        } else {
            Map::<u128, Seq<u8>>::empty()
        }).insert(k, v),
        forall|o2: Seq<u8>|
            s2.owners().contains(o2) && o2 != encode_utf8(o) ==> #[trigger] s3.owner_map(o2)
                == s2.owner_map(o2),
    ensures
        s3.owner_map(encode_utf8(o)) == Map::<u128, Seq<u8>>::empty().insert(k, v),
        s3.owner_map(encode_utf8(o)).dom() == Set::<u128>::empty().insert(k),
        s3.owners() == s0.owners().insert(encode_utf8(o)),
        forall|o2: Seq<u8>|
            s0.owners().contains(o2) && o2 != encode_utf8(o) ==> #[trigger] s3.owner_map(o2)
                == s0.owner_map(o2),
{
    let e = encode_utf8(o);
    assert(!s2.owners().contains(e));
    assert(s3.owner_map(e).dom() =~= Set::<u128>::empty().insert(k));
    assert(s3.owners() =~= s0.owners().insert(e));
    assert forall|o2: Seq<u8>| s0.owners().contains(o2) && o2 != e implies #[trigger] s3.owner_map(
        o2,
    ) == s0.owner_map(o2) by {
        assert(s1.owners().contains(o2));
        assert(s2.owners().contains(o2));
    }
}

/// Ordered traversal: in a well-formed numeric map — hence after any
/// sequence of inserts and removes, which all preserve well-formedness —
/// the in-order walk yields strictly increasing keys with no duplicates,
/// and those keys are exactly the map's keys.
pub proof fn lemma_ordered_traversal_num(m: NumMap)
    requires
        m.wf(),
    ensures
        forall|i: int, j: int|
            0 <= i < j < m.keys_in_order().len() ==> m.keys_in_order()[i] < m.keys_in_order()[j],
        forall|i: int|
            0 <= i < m.keys_in_order().len() ==> m.as_map().contains_key(
                #[trigger] m.keys_in_order()[i],
            ),
        forall|k: u128| m.as_map().contains_key(k) ==> m.keys_in_order().contains(k),
{
    assert forall|i: int, j: int|
        0 <= i < j < m.keys_in_order().len() implies m.keys_in_order()[i]
        < m.keys_in_order()[j] by {
        assert(m.keys_in_order()[i] == m.entries@[i].key);
        assert(m.keys_in_order()[j] == m.entries@[j].key);
    }
    assert forall|i: int| 0 <= i < m.keys_in_order().len() implies m.as_map().contains_key(
        #[trigger] m.keys_in_order()[i],
    ) by {
        assert(m.keys_in_order()[i] == m.entries@[i].key);
        crate::nummap::lemma_num_entries_map_index(m.entries@, i);
    }
    assert forall|k: u128| m.as_map().contains_key(k) implies m.keys_in_order().contains(k) by {
        lemma_num_entries_map_contains_exists(m.entries@, k);
        let i = choose|i: int| 0 <= i < m.entries@.len() && m.entries@[i].key == k;
        assert(m.keys_in_order()[i] == k);
    }
}

/// Ordered traversal for the string-keyed map, under lexicographic order.
pub proof fn lemma_ordered_traversal_byte(m: ByteMap)
    requires
        m.wf(),
    ensures
        forall|i: int, j: int|
            0 <= i < j < m.keys_in_order().len() ==> lex_lt(
                m.keys_in_order()[i],
                m.keys_in_order()[j],
            ),
        forall|i: int|
            0 <= i < m.keys_in_order().len() ==> m.as_map().contains_key(
                #[trigger] m.keys_in_order()[i],
            ),
{
    assert forall|i: int, j: int| 0 <= i < j < m.keys_in_order().len() implies lex_lt(
        m.keys_in_order()[i],
        m.keys_in_order()[j],
    ) by {
        assert(m.keys_in_order()[i] == m.entries@[i].key@);
        assert(m.keys_in_order()[j] == m.entries@[j].key@);
    }
    assert forall|i: int| 0 <= i < m.keys_in_order().len() implies m.as_map().contains_key(
        #[trigger] m.keys_in_order()[i],
    ) by {
        assert(m.keys_in_order()[i] == m.entries@[i].key@);
        crate::bytemap::lemma_byte_sorted_distinct(m.entries@);
        crate::bytemap::lemma_byte_entries_map_index(m.entries@, i);
    }
}

} // verus!
