//! An ordered map from byte-string keys to byte-string values, kept as a
//! sequence of entries in strictly increasing lexicographic key order, so
//! that an in-order walk of the entries is an ordered traversal.

use vstd::prelude::*;
use crate::lex::{lex_lt, lemma_lex_asymmetric, lemma_lex_total, lemma_lex_transitive, bytes_lt};

verus! {

/// One key-value pair of a byte-keyed map.
pub struct ByteEntry {
    pub key: Vec<u8>,
    pub val: Vec<u8>,
}

/// The entries as pairs of mathematical sequences.
pub open spec fn byte_entry_views(s: Seq<ByteEntry>) -> Seq<(Seq<u8>, Seq<u8>)> {
    s.map_values(|e: ByteEntry| (e.key@, e.val@))
}

/// Keys strictly increase along the entry sequence.
pub open spec fn byte_entries_sorted(s: Seq<ByteEntry>) -> bool {
    forall|i: int, j: int| 0 <= i < j < s.len() ==> lex_lt(s[i].key@, s[j].key@)
}

/// No two entries share a key.
pub open spec fn byte_keys_distinct(s: Seq<ByteEntry>) -> bool {
    forall|i: int, j: int| 0 <= i < j < s.len() ==> s[i].key@ != s[j].key@
}

/// The mathematical map an entry sequence denotes.
pub open spec fn byte_entries_map(s: Seq<ByteEntry>) -> Map<Seq<u8>, Seq<u8>>
    decreases s.len(),
{
    if s.len() == 0 {
        Map::empty()
    } else {
        byte_entries_map(s.drop_last()).insert(s.last().key@, s.last().val@)
    }
}

pub proof fn lemma_byte_sorted_distinct(s: Seq<ByteEntry>)
    requires
        byte_entries_sorted(s),
    ensures
        byte_keys_distinct(s),
{
    assert forall|i: int, j: int| 0 <= i < j < s.len() implies s[i].key@ != s[j].key@ by {
        lemma_lex_asymmetric(s[i].key@, s[j].key@);
    }
}

/// An entry's key is in the map, bound to that entry's value.
pub proof fn lemma_byte_entries_map_index(s: Seq<ByteEntry>, i: int)
    requires
        byte_keys_distinct(s),
        0 <= i < s.len(),
    ensures
        byte_entries_map(s).contains_key(s[i].key@),
        byte_entries_map(s)[s[i].key@] == s[i].val@,
    decreases s.len(),
{
    if i < s.len() - 1 {
        lemma_byte_entries_map_index(s.drop_last(), i);
    }
}

/// A key held by no entry is not in the map.
pub proof fn lemma_byte_entries_map_absent(s: Seq<ByteEntry>, k: Seq<u8>)
    requires
        forall|i: int| 0 <= i < s.len() ==> s[i].key@ != k,
    ensures
        !byte_entries_map(s).contains_key(k),
    decreases s.len(),
{
    if s.len() > 0 {
        lemma_byte_entries_map_absent(s.drop_last(), k);
    }
}

/// Inserting an entry with a fresh key at any position inserts it in the map.
pub proof fn lemma_byte_entries_map_insert_at(s: Seq<ByteEntry>, i: int, e: ByteEntry)
    requires
        0 <= i <= s.len(),
        forall|j: int| 0 <= j < s.len() ==> s[j].key@ != e.key@,
    ensures
        byte_entries_map(s.insert(i, e)) == byte_entries_map(s).insert(e.key@, e.val@),
    decreases s.len() - i,
{
    let t = s.insert(i, e);
    if i == s.len() {
        assert(t.drop_last() =~= s);
        assert(t.last() == e);
    } else {
        assert(t.last() == s.last());
        assert(t.drop_last() =~= s.drop_last().insert(i, e));
        lemma_byte_entries_map_insert_at(s.drop_last(), i, e);
        assert(byte_entries_map(t) =~= byte_entries_map(s).insert(e.key@, e.val@));
    }
}

/// Overwriting the entry that holds a key overwrites the key's value in the map.
pub proof fn lemma_byte_entries_map_update(s: Seq<ByteEntry>, i: int, e: ByteEntry)
    requires
        byte_keys_distinct(s),
        0 <= i < s.len(),
        s[i].key@ == e.key@,
    ensures
        byte_entries_map(s.update(i, e)) == byte_entries_map(s).insert(e.key@, e.val@),
    decreases s.len(),
{
    let t = s.update(i, e);
    if i == s.len() - 1 {
        assert(t.drop_last() =~= s.drop_last());
        assert(t.last() == e);
        assert(byte_entries_map(t) =~= byte_entries_map(s).insert(e.key@, e.val@));
    } else {
        assert(t.last() == s.last());
        assert(t.drop_last() =~= s.drop_last().update(i, e));
        lemma_byte_entries_map_update(s.drop_last(), i, e);
        assert(byte_entries_map(t) =~= byte_entries_map(s).insert(e.key@, e.val@));
    }
}

/// Removing the entry that holds a key removes the key from the map.
pub proof fn lemma_byte_entries_map_remove(s: Seq<ByteEntry>, i: int)
    requires
        byte_keys_distinct(s),
        0 <= i < s.len(),
    ensures
        byte_entries_map(s.remove(i)) == byte_entries_map(s).remove(s[i].key@),
    decreases s.len(),
{
    let t = s.remove(i);
    if i == s.len() - 1 {
        assert(t =~= s.drop_last());
        lemma_byte_entries_map_absent(s.drop_last(), s[i].key@);
        assert(byte_entries_map(t) =~= byte_entries_map(s).remove(s[i].key@));
    } else {
        assert(t.last() == s.last());
        assert(t.drop_last() =~= s.drop_last().remove(i));
        lemma_byte_entries_map_remove(s.drop_last(), i);
        assert(byte_entries_map(t) =~= byte_entries_map(s).remove(s[i].key@));
    }
}

/// A key in the map is held by some entry.
pub proof fn lemma_byte_entries_map_contains_exists(s: Seq<ByteEntry>, k: Seq<u8>)
    requires
        byte_entries_map(s).contains_key(k),
    ensures
        exists|i: int| 0 <= i < s.len() && s[i].key@ == k,
    decreases s.len(),
{
    if s.len() > 0 {
        if s.last().key@ == k {
            assert(s[s.len() - 1].key@ == k);
        } else {
            lemma_byte_entries_map_contains_exists(s.drop_last(), k);
            let i = choose|i: int| 0 <= i < s.drop_last().len() && s.drop_last()[i].key@ == k;
            assert(s[i].key@ == k);
        }
    }
}

/// The map of a duplicate-free entry sequence has exactly one binding per entry.
pub proof fn lemma_byte_entries_map_size(s: Seq<ByteEntry>)
    requires
        byte_keys_distinct(s),
    ensures
        byte_entries_map(s).dom().finite(),
        byte_entries_map(s).dom().len() == s.len(),
    decreases s.len(),
{
    if s.len() > 0 {
        lemma_byte_entries_map_size(s.drop_last());
        assert forall|i: int| 0 <= i < s.drop_last().len() implies s.drop_last()[i].key@
            != s.last().key@ by {
            assert(s.drop_last()[i] == s[i]);
        }
        lemma_byte_entries_map_absent(s.drop_last(), s.last().key@);
        assert(byte_entries_map(s).dom() =~= byte_entries_map(s.drop_last()).dom().insert(
            s.last().key@,
        ));
    }
}

/// Two sorted entry sequences denoting the same map are the same sequence:
/// a map has exactly one in-order representation, so any two states that
/// agree as maps are indistinguishable by traversal.
pub proof fn lemma_byte_canonical(a: Seq<ByteEntry>, b: Seq<ByteEntry>)
    requires
        byte_entries_sorted(a),
        byte_entries_sorted(b),
        byte_entries_map(a) == byte_entries_map(b),
    ensures
        byte_entry_views(a) =~= byte_entry_views(b),
    decreases a.len(),
{
    lemma_byte_sorted_distinct(a);
    lemma_byte_sorted_distinct(b);
    lemma_byte_entries_map_size(a);
    lemma_byte_entries_map_size(b);
    if a.len() > 0 {
        let ka = a.last().key@;
        let kb = b.last().key@;
        lemma_byte_entries_map_index(a, a.len() - 1);
        lemma_byte_entries_map_index(b, b.len() - 1);
        if ka != kb {
            lemma_byte_entries_map_contains_exists(b, ka);
            let i = choose|i: int| 0 <= i < b.len() && b[i].key@ == ka;
            assert(lex_lt(ka, kb));
            lemma_byte_entries_map_contains_exists(a, kb);
            let j = choose|j: int| 0 <= j < a.len() && a[j].key@ == kb;
            assert(lex_lt(kb, ka));
            lemma_lex_asymmetric(ka, kb);
        }
        assert forall|i: int| 0 <= i < a.drop_last().len() implies a.drop_last()[i].key@ != ka by {
            assert(a.drop_last()[i] == a[i]);
        }
        assert forall|i: int| 0 <= i < b.drop_last().len() implies b.drop_last()[i].key@ != ka by {
            assert(b.drop_last()[i] == b[i]);
        }
        lemma_byte_entries_map_absent(a.drop_last(), ka);
        lemma_byte_entries_map_absent(b.drop_last(), ka);
        assert(byte_entries_map(a.drop_last()) =~= byte_entries_map(a).remove(ka));
        assert(byte_entries_map(b.drop_last()) =~= byte_entries_map(b).remove(ka));
        assert(byte_entries_sorted(a.drop_last())) by {
            assert forall|i: int, j: int|
                0 <= i < j < a.drop_last().len() implies lex_lt(
                a.drop_last()[i].key@,
                a.drop_last()[j].key@,
            ) by {
                assert(a.drop_last()[i] == a[i]);
                assert(a.drop_last()[j] == a[j]);
            }
        }
        assert(byte_entries_sorted(b.drop_last())) by {
            assert forall|i: int, j: int|
                0 <= i < j < b.drop_last().len() implies lex_lt(
                b.drop_last()[i].key@,
                b.drop_last()[j].key@,
            ) by {
                assert(b.drop_last()[i] == b[i]);
                assert(b.drop_last()[j] == b[j]);
            }
        }
        lemma_byte_canonical(a.drop_last(), b.drop_last());
        let va = a.last().val@;
        assert(byte_entries_map(a)[ka] == va);
        assert(b.last().val@ == byte_entries_map(b)[ka]);
        assert forall|i: int| 0 <= i < a.len() implies byte_entry_views(a)[i] == byte_entry_views(
            b,
        )[i] by {
            if i < a.len() - 1 {
                assert(byte_entry_views(a.drop_last())[i] == byte_entry_views(b.drop_last())[i]);
                assert(byte_entry_views(a)[i] == (a[i].key@, a[i].val@));
                assert(byte_entry_views(b)[i] == (b[i].key@, b[i].val@));
                assert(byte_entry_views(a.drop_last())[i] == (a[i].key@, a[i].val@));
                assert(byte_entry_views(b.drop_last())[i] == (b[i].key@, b[i].val@));
            }
        }
    }
}

/// When a scan has passed every key below `k` and stopped at an entry that
/// does not hold `k`, no entry holds `k`.
pub proof fn lemma_byte_position_absent(s: Seq<ByteEntry>, k: Seq<u8>, i: int)
    requires
        byte_entries_sorted(s),
        0 <= i <= s.len(),
        forall|j: int| 0 <= j < i ==> lex_lt(s[j].key@, k),
        i < s.len() ==> !lex_lt(s[i].key@, k) && s[i].key@ != k,
    ensures
        forall|j: int| 0 <= j < s.len() ==> s[j].key@ != k,
{
    assert forall|j: int| 0 <= j < s.len() implies s[j].key@ != k by {
        let kj = s[j].key@;
        if j < i {
            lemma_lex_asymmetric(kj, k);
        } else {
            let ki = s[i].key@;
            lemma_lex_total(ki, k);
            if j > i {
                lemma_lex_transitive(k, ki, kj);
            }
            lemma_lex_asymmetric(k, kj);
        }
    }
}

/// An ordered map from byte-string keys to byte-string values.
///
/// Invariant (`wf`): the entries stand in strictly increasing lexicographic
/// key order; every operation preserves it.
pub struct ByteMap {
    pub entries: Vec<ByteEntry>,
}

impl ByteMap {
    /// The entry sequence, as mathematical values, in traversal order.
    pub open spec fn entries_view(self) -> Seq<(Seq<u8>, Seq<u8>)> {
        byte_entry_views(self.entries@)
    }

    /// The keys in traversal order.
    pub open spec fn keys_in_order(self) -> Seq<Seq<u8>> {
        self.entries@.map_values(|e: ByteEntry| e.key@)
    }

    /// The mathematical map this structure denotes.
    pub open spec fn as_map(self) -> Map<Seq<u8>, Seq<u8>> {
        byte_entries_map(self.entries@)
    }

    /// Well-formedness: strictly increasing keys.
    pub open spec fn wf(self) -> bool {
        byte_entries_sorted(self.entries@)
    }

    /// An empty map.
    pub fn new() -> (r: ByteMap)
        ensures
            r.wf(),
            r.as_map() == Map::<Seq<u8>, Seq<u8>>::empty(),
            r.entries@.len() == 0,
    {
        ByteMap { entries: Vec::new() }
    }

    /// The number of entries.
    pub fn len(&self) -> (r: usize)
        ensures
            r == self.entries@.len(),
    {
        self.entries.len()
    }

    /// Position of the first entry whose key is not below `key`.
    fn find(&self, key: &Vec<u8>) -> (r: usize)
        requires
            self.wf(),
        ensures
            r <= self.entries@.len(),
            forall|j: int| 0 <= j < r ==> lex_lt(self.entries@[j].key@, key@),
            r < self.entries@.len() ==> !lex_lt(self.entries@[r as int].key@, key@),
    {
        let mut i: usize = 0;
        while i < self.entries.len() && bytes_lt(&self.entries[i].key, key)
            invariant
                i <= self.entries@.len(),
                forall|j: int| 0 <= j < i ==> lex_lt(self.entries@[j].key@, key@),
            decreases self.entries@.len() - i,
        {
            i = i + 1;
        }
        i
    }

    /// Looks a key up; returns its value, or nothing when the key is absent.
    pub fn get(&self, key: &Vec<u8>) -> (r: Option<&Vec<u8>>)
        requires
            self.wf(),
        ensures
            match r {
                Some(v) => self.as_map().contains_key(key@) && v@ == self.as_map()[key@],
                None => !self.as_map().contains_key(key@),
            },
    {
        let i = self.find(key);
        proof {
            lemma_byte_sorted_distinct(self.entries@);
        }
        if i < self.entries.len() && self.entries[i].key == *key {
            proof {
                assert(self.entries@[i as int].key@ =~= key@);
                lemma_byte_entries_map_index(self.entries@, i as int);
            }
            Some(&self.entries[i].val)
        } else {
            proof {
                lemma_byte_position_absent(self.entries@, key@, i as int);
                lemma_byte_entries_map_absent(self.entries@, key@);
            }
            None
        }
    }

    /// Binds `key` to `val`. A key already present has its value overwritten
    /// in place; no duplicate entry arises, and the operation never fails.
    pub fn insert(&mut self, key: Vec<u8>, val: Vec<u8>)
        requires
            old(self).wf(),
        ensures
            final(self).wf(),
            final(self).as_map() == old(self).as_map().insert(key@, val@),
    {
        let ghost s0 = self.entries@;
        let i = self.find(&key);
        proof {
            lemma_byte_sorted_distinct(s0);
        }
        if i < self.entries.len() && self.entries[i].key == key {
            proof {
                assert(s0[i as int].key@ =~= key@);
            }
            let e = ByteEntry { key, val };
            let _replaced = self.entries.remove(i);
            self.entries.insert(i, e);
            proof {
                assert(self.entries@ =~= s0.update(i as int, e));
                lemma_byte_entries_map_update(s0, i as int, e);
                assert forall|a: int, b: int|
                    0 <= a < b < self.entries@.len() implies lex_lt(
                    self.entries@[a].key@,
                    self.entries@[b].key@,
                ) by {
                    assert(self.entries@[a].key@ == s0[a].key@);
                    assert(self.entries@[b].key@ == s0[b].key@);
                }
            }
        } else {
            proof {
                if i < s0.len() {
                    lemma_lex_total(s0[i as int].key@, key@);
                }
                lemma_byte_position_absent(s0, key@, i as int);
            }
            let e = ByteEntry { key, val };
            self.entries.insert(i, e);
            proof {
                assert(self.entries@ =~= s0.insert(i as int, e));
                lemma_byte_entries_map_insert_at(s0, i as int, e);
                assert forall|a: int, b: int|
                    0 <= a < b < self.entries@.len() implies lex_lt(
                    self.entries@[a].key@,
                    self.entries@[b].key@,
                ) by {
                    let n = s0.len() as int;
                    if b < i {
                        assert(self.entries@[a] == s0[a]);
                        assert(self.entries@[b] == s0[b]);
                    } else if a < i && b == i {
                        assert(self.entries@[a] == s0[a]);
                    } else if a < i && b > i {
                        assert(self.entries@[a] == s0[a]);
                        assert(self.entries@[b] == s0[b - 1]);
                        if b - 1 > i {
                            lemma_lex_transitive(key@, s0[i as int].key@, s0[b - 1].key@);
                        }
                        lemma_lex_transitive(s0[a].key@, key@, s0[b - 1].key@);
                    } else if a == i && b > i {
                        assert(self.entries@[b] == s0[b - 1]);
                        if b - 1 > i {
                            lemma_lex_transitive(key@, s0[i as int].key@, s0[b - 1].key@);
                        }
                    } else {
                        assert(self.entries@[a] == s0[a - 1]);
                        assert(self.entries@[b] == s0[b - 1]);
                    }
                }
            }
        }
    }

    /// Unbinds a key. Removing an absent key is a silent no-op: the base map
    /// does not signal absence.
    pub fn remove(&mut self, key: &Vec<u8>)
        requires
            old(self).wf(),
        ensures
            final(self).wf(),
            final(self).as_map() == old(self).as_map().remove(key@),
    {
        let ghost s0 = self.entries@;
        let i = self.find(key);
        proof {
            lemma_byte_sorted_distinct(s0);
        }
        if i < self.entries.len() && self.entries[i].key == *key {
            proof {
                assert(s0[i as int].key@ =~= key@);
            }
            let _removed = self.entries.remove(i);
            proof {
                assert(self.entries@ =~= s0.remove(i as int));
                lemma_byte_entries_map_remove(s0, i as int);
                assert forall|a: int, b: int|
                    0 <= a < b < self.entries@.len() implies lex_lt(
                    self.entries@[a].key@,
                    self.entries@[b].key@,
                ) by {
                    assert(self.entries@[a] == (if a < i { s0[a] } else { s0[a + 1] }));
                    assert(self.entries@[b] == (if b < i { s0[b] } else { s0[b + 1] }));
                }
            }
        } else {
            proof {
                lemma_byte_position_absent(s0, key@, i as int);
                lemma_byte_entries_map_absent(s0, key@);
                assert(self.as_map() =~= old(self).as_map().remove(key@));
            }
        }
    }

    /// Whether a key is present.
    pub fn contains_key(&self, key: &Vec<u8>) -> (r: bool)
        requires
            self.wf(),
        ensures
            r == self.as_map().contains_key(key@),
    {
        self.get(key).is_some()
    }

    /// The least key, or nothing when the map is empty.
    pub fn min_key(&self) -> (r: Option<&Vec<u8>>)
        requires
            self.wf(),
        ensures
            match r {
                Some(k) => self.as_map().contains_key(k@) && forall|k2: Seq<u8>|
                    self.as_map().contains_key(k2) ==> k2 == k@ || lex_lt(k@, k2),
                None => self.entries@.len() == 0,
            },
    {
        if self.entries.len() == 0 {
            None
        } else {
            proof {
                lemma_byte_sorted_distinct(self.entries@);
                lemma_byte_entries_map_index(self.entries@, 0);
                assert forall|k2: Seq<u8>|
                    self.as_map().contains_key(k2) implies k2 == self.entries@[0].key@ || lex_lt(
                    self.entries@[0].key@,
                    k2,
                ) by {
                    lemma_byte_entries_map_contains_exists(self.entries@, k2);
                }
            }
            Some(&self.entries[0].key)
        }
    }

    /// The greatest key, or nothing when the map is empty.
    pub fn max_key(&self) -> (r: Option<&Vec<u8>>)
        requires
            self.wf(),
        ensures
            match r {
                Some(k) => self.as_map().contains_key(k@) && forall|k2: Seq<u8>|
                    self.as_map().contains_key(k2) ==> k2 == k@ || lex_lt(k2, k@),
                None => self.entries@.len() == 0,
            },
    {
        if self.entries.len() == 0 {
            None
        } else {
            let last = self.entries.len() - 1;
            proof {
                lemma_byte_sorted_distinct(self.entries@);
                lemma_byte_entries_map_index(self.entries@, last as int);
                assert forall|k2: Seq<u8>|
                    self.as_map().contains_key(k2) implies k2 == self.entries@[last as int].key@
                    || lex_lt(k2, self.entries@[last as int].key@) by {
                    lemma_byte_entries_map_contains_exists(self.entries@, k2);
                }
            }
            Some(&self.entries[last].key)
        }
    }

    /// The keys in traversal order: an in-order walk of the map.
    pub fn keys(&self) -> (r: Vec<Vec<u8>>)
        ensures
            r@.len() == self.entries@.len(),
            forall|i: int| 0 <= i < r@.len() ==> r@[i]@ == self.entries@[i].key@,
    {
        let mut r: Vec<Vec<u8>> = Vec::new();
        let mut i: usize = 0;
        while i < self.entries.len()
            invariant
                i <= self.entries@.len(),
                r@.len() == i,
                forall|j: int| 0 <= j < i ==> r@[j]@ == self.entries@[j].key@,
            decreases self.entries@.len() - i,
        {
            let mut k: Vec<u8> = Vec::new();
            k.extend_from_slice(self.entries[i].key.as_slice());
            proof {
                assert(k@ =~= self.entries@[i as int].key@);
            }
            r.push(k);
            i = i + 1;
        }
        r
    }
}

} // verus!
