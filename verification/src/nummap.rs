//! An ordered map from 128-bit unsigned integer keys to byte-string values,
//! kept as a sequence of entries in strictly increasing numeric key order, so
//! that an in-order walk of the entries is an ordered traversal.

use vstd::prelude::*;

verus! {

/// One key-value pair of a numeric-keyed map.
pub struct NumEntry {
    pub key: u128,
    pub val: Vec<u8>,
}

/// The entries as pairs of mathematical values.
pub open spec fn num_entry_views(s: Seq<NumEntry>) -> Seq<(u128, Seq<u8>)> {
    s.map_values(|e: NumEntry| (e.key, e.val@))
}

/// Keys strictly increase along the entry sequence.
pub open spec fn num_entries_sorted(s: Seq<NumEntry>) -> bool {
    forall|i: int, j: int| 0 <= i < j < s.len() ==> s[i].key < s[j].key
}

/// No two entries share a key.
pub open spec fn num_keys_distinct(s: Seq<NumEntry>) -> bool {
    forall|i: int, j: int| 0 <= i < j < s.len() ==> s[i].key != s[j].key
}

/// The mathematical map an entry sequence denotes.
pub open spec fn num_entries_map(s: Seq<NumEntry>) -> Map<u128, Seq<u8>>
    decreases s.len(),
{
    if s.len() == 0 {
        Map::empty()
    } else {
        num_entries_map(s.drop_last()).insert(s.last().key, s.last().val@)
    }
}

/// An entry's key is in the map, bound to that entry's value.
pub proof fn lemma_num_entries_map_index(s: Seq<NumEntry>, i: int)
    requires
        num_keys_distinct(s),
        0 <= i < s.len(),
    ensures
        num_entries_map(s).contains_key(s[i].key),
        num_entries_map(s)[s[i].key] == s[i].val@,
    decreases s.len(),
{
    if i < s.len() - 1 {
        lemma_num_entries_map_index(s.drop_last(), i);
    }
}

/// A key held by no entry is not in the map.
pub proof fn lemma_num_entries_map_absent(s: Seq<NumEntry>, k: u128)
    requires
        forall|i: int| 0 <= i < s.len() ==> s[i].key != k,
    ensures
        !num_entries_map(s).contains_key(k),
    decreases s.len(),
{
    if s.len() > 0 {
        lemma_num_entries_map_absent(s.drop_last(), k);
    }
}

/// A key in the map is held by some entry.
pub proof fn lemma_num_entries_map_contains_exists(s: Seq<NumEntry>, k: u128)
    requires
        num_entries_map(s).contains_key(k),
    ensures
        exists|i: int| 0 <= i < s.len() && s[i].key == k,
    decreases s.len(),
{
    if s.len() > 0 {
        if s.last().key == k {
            assert(s[s.len() - 1].key == k);
        } else {
            lemma_num_entries_map_contains_exists(s.drop_last(), k);
            let i = choose|i: int| 0 <= i < s.drop_last().len() && s.drop_last()[i].key == k;
            assert(s[i].key == k);
        }
    }
}

/// The map of a duplicate-free entry sequence has exactly one binding per entry.
pub proof fn lemma_num_entries_map_size(s: Seq<NumEntry>)
    requires
        num_keys_distinct(s),
    ensures
        num_entries_map(s).dom().finite(),
        num_entries_map(s).dom().len() == s.len(),
    decreases s.len(),
{
    if s.len() > 0 {
        lemma_num_entries_map_size(s.drop_last());
        assert forall|i: int| 0 <= i < s.drop_last().len() implies s.drop_last()[i].key
            != s.last().key by {
            assert(s.drop_last()[i] == s[i]);
        }
        lemma_num_entries_map_absent(s.drop_last(), s.last().key);
        assert(num_entries_map(s).dom() =~= num_entries_map(s.drop_last()).dom().insert(
            s.last().key,
        ));
    }
}

/// Inserting an entry with a fresh key at any position inserts it in the map.
pub proof fn lemma_num_entries_map_insert_at(s: Seq<NumEntry>, i: int, e: NumEntry)
    requires
        0 <= i <= s.len(),
        forall|j: int| 0 <= j < s.len() ==> s[j].key != e.key,
    ensures
        num_entries_map(s.insert(i, e)) == num_entries_map(s).insert(e.key, e.val@),
    decreases s.len() - i,
{
    let t = s.insert(i, e);
    if i == s.len() {
        assert(t.drop_last() =~= s);
        assert(t.last() == e);
    } else {
        assert(t.last() == s.last());
        assert(t.drop_last() =~= s.drop_last().insert(i, e));
        lemma_num_entries_map_insert_at(s.drop_last(), i, e);
        assert(num_entries_map(t) =~= num_entries_map(s).insert(e.key, e.val@));
    }
}

/// Overwriting the entry that holds a key overwrites the key's value in the map.
pub proof fn lemma_num_entries_map_update(s: Seq<NumEntry>, i: int, e: NumEntry)
    requires
        num_keys_distinct(s),
        0 <= i < s.len(),
        s[i].key == e.key,
    ensures
        num_entries_map(s.update(i, e)) == num_entries_map(s).insert(e.key, e.val@),
    decreases s.len(),
{
    let t = s.update(i, e);
    if i == s.len() - 1 {
        assert(t.drop_last() =~= s.drop_last());
        assert(t.last() == e);
        assert(num_entries_map(t) =~= num_entries_map(s).insert(e.key, e.val@));
    } else {
        assert(t.last() == s.last());
        assert(t.drop_last() =~= s.drop_last().update(i, e));
        lemma_num_entries_map_update(s.drop_last(), i, e);
        assert(num_entries_map(t) =~= num_entries_map(s).insert(e.key, e.val@));
    }
}

/// Removing the entry that holds a key removes the key from the map.
pub proof fn lemma_num_entries_map_remove(s: Seq<NumEntry>, i: int)
    requires
        num_keys_distinct(s),
        0 <= i < s.len(),
    ensures
        num_entries_map(s.remove(i)) == num_entries_map(s).remove(s[i].key),
    decreases s.len(),
{
    let t = s.remove(i);
    if i == s.len() - 1 {
        assert(t =~= s.drop_last());
        lemma_num_entries_map_absent(s.drop_last(), s[i].key);
        assert(num_entries_map(t) =~= num_entries_map(s).remove(s[i].key));
    } else {
        assert(t.last() == s.last());
        assert(t.drop_last() =~= s.drop_last().remove(i));
        lemma_num_entries_map_remove(s.drop_last(), i);
        assert(num_entries_map(t) =~= num_entries_map(s).remove(s[i].key));
    }
}

/// Two sorted entry sequences denoting the same map are the same sequence:
/// a map has exactly one in-order representation, so any two states that
/// agree as maps are indistinguishable by traversal.
pub proof fn lemma_num_canonical(a: Seq<NumEntry>, b: Seq<NumEntry>)
    requires
        num_entries_sorted(a),
        num_entries_sorted(b),
        num_entries_map(a) == num_entries_map(b),
    ensures
        num_entry_views(a) =~= num_entry_views(b),
    decreases a.len(),
{
    lemma_num_entries_map_size(a);
    lemma_num_entries_map_size(b);
    if a.len() > 0 {
        let ka = a.last().key;
        let kb = b.last().key;
        lemma_num_entries_map_index(a, a.len() - 1);
        lemma_num_entries_map_index(b, b.len() - 1);
        if ka != kb {
            lemma_num_entries_map_contains_exists(b, ka);
            lemma_num_entries_map_contains_exists(a, kb);
        }
        assert(ka == kb);
        assert forall|i: int| 0 <= i < a.drop_last().len() implies a.drop_last()[i].key != ka by {
            assert(a.drop_last()[i] == a[i]);
        }
        assert forall|i: int| 0 <= i < b.drop_last().len() implies b.drop_last()[i].key != ka by {
            assert(b.drop_last()[i] == b[i]);
        }
        lemma_num_entries_map_absent(a.drop_last(), ka);
        lemma_num_entries_map_absent(b.drop_last(), ka);
        assert(num_entries_map(a.drop_last()) =~= num_entries_map(a).remove(ka));
        assert(num_entries_map(b.drop_last()) =~= num_entries_map(b).remove(ka));
        lemma_num_canonical(a.drop_last(), b.drop_last());
        assert(num_entries_map(a)[ka] == a.last().val@);
        assert(num_entries_map(b)[ka] == b.last().val@);
        assert forall|i: int| 0 <= i < a.len() implies num_entry_views(a)[i] == num_entry_views(
            b,
        )[i] by {
            if i < a.len() - 1 {
                assert(num_entry_views(a.drop_last())[i] == num_entry_views(b.drop_last())[i]);
                assert(num_entry_views(a.drop_last())[i] == (a[i].key, a[i].val@));
                assert(num_entry_views(b.drop_last())[i] == (b[i].key, b[i].val@));
            }
        }
    }
}

/// The keys of an entry sequence that fall within `[lo, hi]`, in order.
pub open spec fn range_keys(s: Seq<NumEntry>, lo: u128, hi: u128) -> Seq<u128>
    decreases s.len(),
{
    if s.len() == 0 {
        Seq::empty()
    } else if lo <= s.last().key <= hi {
        range_keys(s.drop_last(), lo, hi).push(s.last().key)
    } else {
        range_keys(s.drop_last(), lo, hi)
    }
}

/// The range holds exactly the keys of entries within the bounds.
pub proof fn lemma_range_keys_membership(s: Seq<NumEntry>, lo: u128, hi: u128, k: u128)
    ensures
        range_keys(s, lo, hi).contains(k) <==> exists|j: int|
            0 <= j < s.len() && s[j].key == k && lo <= k <= hi,
    decreases s.len(),
{
    if s.len() > 0 {
        lemma_range_keys_membership(s.drop_last(), lo, hi, k);
        let r = range_keys(s, lo, hi);
        let rp = range_keys(s.drop_last(), lo, hi);
        if lo <= s.last().key <= hi && s.last().key == k {
            assert(r[r.len() - 1] == k);
            assert(r.contains(k));
            assert(s[s.len() - 1].key == k);
        } else if r.contains(k) {
            let a = choose|a: int| 0 <= a < r.len() && r[a] == k;
            if lo <= s.last().key <= hi {
                assert(a < r.len() - 1);
                assert(rp[a] == k);
            }
            assert(rp.contains(k));
            let j = choose|j: int| 0 <= j < s.drop_last().len() && s.drop_last()[j].key == k && lo
                <= k <= hi;
            assert(s[j].key == k);
        } else if exists|j: int| 0 <= j < s.len() && s[j].key == k && lo <= k <= hi {
            let j = choose|j: int| 0 <= j < s.len() && s[j].key == k && lo <= k <= hi;
            assert(j < s.len() - 1);
            assert(s.drop_last()[j].key == k);
            assert(rp.contains(k));
            let a = choose|a: int| 0 <= a < rp.len() && rp[a] == k;
            assert(r[a] == k);
            assert(r.contains(k));
        }
    }
}

/// In a sorted sequence the range keys come out strictly increasing.
pub proof fn lemma_range_keys_sorted(s: Seq<NumEntry>, lo: u128, hi: u128)
    requires
        num_entries_sorted(s),
    ensures
        forall|a: int, b: int|
            0 <= a < b < range_keys(s, lo, hi).len() ==> range_keys(s, lo, hi)[a] < range_keys(
                s,
                lo,
                hi,
            )[b],
        forall|a: int|
            0 <= a < range_keys(s, lo, hi).len() ==> s.len() > 0 && #[trigger] range_keys(
                s,
                lo,
                hi,
            )[a] <= s.last().key,
    decreases s.len(),
{
    if s.len() > 0 {
        assert forall|i: int, j: int|
            0 <= i < j < s.drop_last().len() implies s.drop_last()[i].key
            < s.drop_last()[j].key by {
            assert(s.drop_last()[i] == s[i]);
            assert(s.drop_last()[j] == s[j]);
        }
        lemma_range_keys_sorted(s.drop_last(), lo, hi);
        let r = range_keys(s, lo, hi);
        let rp = range_keys(s.drop_last(), lo, hi);
        assert forall|a: int| 0 <= a < rp.len() implies rp[a] < s.last().key by {
            if s.drop_last().len() > 0 {
                assert(s.drop_last().last() == s[s.len() - 2]);
                assert(s[s.len() - 2].key < s[s.len() - 1].key);
            }
        }
    }
}

impl NumMap {
    /// The keys within `[lo, hi]`, in increasing order: an ordered range
    /// query over the map.
    pub fn keys_in_range(&self, lo: u128, hi: u128) -> (r: Vec<u128>)
        requires
            self.wf(),
        ensures
            forall|a: int, b: int| 0 <= a < b < r@.len() ==> r@[a] < r@[b],
            forall|k: u128|
                #[trigger] r@.contains(k) <==> self.as_map().contains_key(k) && lo <= k <= hi,
    {
        let mut r: Vec<u128> = Vec::new();
        let mut i: usize = 0;
        proof {
            assert(self.entries@.take(0) =~= Seq::<NumEntry>::empty());
        }
        while i < self.entries.len()
            invariant
                i <= self.entries@.len(),
                r@ == range_keys(self.entries@.take(i as int), lo, hi),
            decreases self.entries@.len() - i,
        {
            proof {
                assert(self.entries@.take(i as int + 1).drop_last() =~= self.entries@.take(
                    i as int,
                ));
                assert(self.entries@.take(i as int + 1).last() == self.entries@[i as int]);
            }
            if lo <= self.entries[i].key && self.entries[i].key <= hi {
                r.push(self.entries[i].key);
            }
            i = i + 1;
        }
        proof {
            assert(self.entries@.take(self.entries@.len() as int) =~= self.entries@);
            lemma_range_keys_sorted(self.entries@, lo, hi);
            assert forall|k: u128|
                #[trigger] r@.contains(k) <==> self.as_map().contains_key(k) && lo <= k <= hi by {
                lemma_range_keys_membership(self.entries@, lo, hi, k);
                if self.as_map().contains_key(k) {
                    lemma_num_entries_map_contains_exists(self.entries@, k);
                }
                if exists|j: int| 0 <= j < self.entries@.len() && self.entries@[j].key == k && lo
                    <= k <= hi {
                    let j = choose|j: int|
                        0 <= j < self.entries@.len() && self.entries@[j].key == k && lo <= k <= hi;
                    lemma_num_entries_map_index(self.entries@, j);
                }
            }
        }
        r
    }
}

/// When a scan has passed every key below `k` and stopped at an entry that
/// does not hold `k`, no entry holds `k`.
pub proof fn lemma_num_position_absent(s: Seq<NumEntry>, k: u128, i: int)
    requires
        num_entries_sorted(s),
        0 <= i <= s.len(),
        forall|j: int| 0 <= j < i ==> s[j].key < k,
        i < s.len() ==> s[i].key > k,
    ensures
        forall|j: int| 0 <= j < s.len() ==> s[j].key != k,
{
}

/// An ordered map from `u128` keys to byte-string values.
///
/// Invariant (`wf`): the entries stand in strictly increasing numeric key
/// order; every operation preserves it.
pub struct NumMap {
    pub entries: Vec<NumEntry>,
}

impl NumMap {
    /// The entry sequence, as mathematical values, in traversal order.
    pub open spec fn entries_view(self) -> Seq<(u128, Seq<u8>)> {
        num_entry_views(self.entries@)
    }

    /// The keys in traversal order.
    pub open spec fn keys_in_order(self) -> Seq<u128> {
        self.entries@.map_values(|e: NumEntry| e.key)
    }

    /// The mathematical map this structure denotes.
    pub open spec fn as_map(self) -> Map<u128, Seq<u8>> {
        num_entries_map(self.entries@)
    }

    /// Well-formedness: strictly increasing keys.
    pub open spec fn wf(self) -> bool {
        num_entries_sorted(self.entries@)
    }

    /// An empty map.
    pub fn new() -> (r: NumMap)
        ensures
            r.wf(),
            r.as_map() == Map::<u128, Seq<u8>>::empty(),
            r.entries@.len() == 0,
    {
        NumMap { entries: Vec::new() }
    }

    /// The number of entries.
    pub fn len(&self) -> (r: usize)
        ensures
            r == self.entries@.len(),
    {
        self.entries.len()
    }

    /// Position of the first entry whose key is not below `key`.
    fn find(&self, key: u128) -> (r: usize)
        requires
            self.wf(),
        ensures
            r <= self.entries@.len(),
            forall|j: int| 0 <= j < r ==> self.entries@[j].key < key,
            r < self.entries@.len() ==> self.entries@[r as int].key >= key,
    {
        let mut i: usize = 0;
        while i < self.entries.len() && self.entries[i].key < key
            invariant
                i <= self.entries@.len(),
                forall|j: int| 0 <= j < i ==> self.entries@[j].key < key,
            decreases self.entries@.len() - i,
        {
            i = i + 1;
        }
        i
    }

    /// Looks a key up; returns its value, or nothing when the key is absent.
    pub fn get(&self, key: u128) -> (r: Option<&Vec<u8>>)
        requires
            self.wf(),
        ensures
            match r {
                Some(v) => self.as_map().contains_key(key) && v@ == self.as_map()[key],
                None => !self.as_map().contains_key(key),
            },
    {
        let i = self.find(key);
        if i < self.entries.len() && self.entries[i].key == key {
            proof {
                lemma_num_entries_map_index(self.entries@, i as int);
            }
            Some(&self.entries[i].val)
        } else {
            proof {
                lemma_num_position_absent(self.entries@, key, i as int);
                lemma_num_entries_map_absent(self.entries@, key);
            }
            None
        }
    }

    /// Whether a key is present.
    pub fn contains_key(&self, key: u128) -> (r: bool)
        requires
            self.wf(),
        ensures
            r == self.as_map().contains_key(key),
    {
        self.get(key).is_some()
    }

    /// Binds `key` to `val`. A key already present has its value overwritten
    /// in place; no duplicate entry arises, and the operation never fails.
    pub fn insert(&mut self, key: u128, val: Vec<u8>)
        requires
            old(self).wf(),
        ensures
            final(self).wf(),
            final(self).as_map() == old(self).as_map().insert(key, val@),
    {
        let ghost s0 = self.entries@;
        let i = self.find(key);
        if i < self.entries.len() && self.entries[i].key == key {
            let e = NumEntry { key, val };
            let _replaced = self.entries.remove(i);
            self.entries.insert(i, e);
            proof {
                assert(self.entries@ =~= s0.update(i as int, e));
                lemma_num_entries_map_update(s0, i as int, e);
                assert forall|a: int, b: int|
                    0 <= a < b < self.entries@.len() implies self.entries@[a].key
                    < self.entries@[b].key by {
                    assert(self.entries@[a].key == s0[a].key);
                    assert(self.entries@[b].key == s0[b].key);
                }
            }
        } else {
            proof {
                lemma_num_position_absent(s0, key, i as int);
            }
            let e = NumEntry { key, val };
            self.entries.insert(i, e);
            proof {
                assert(self.entries@ =~= s0.insert(i as int, e));
                lemma_num_entries_map_insert_at(s0, i as int, e);
                assert forall|a: int, b: int|
                    0 <= a < b < self.entries@.len() implies self.entries@[a].key
                    < self.entries@[b].key by {
                    if b < i {
                        assert(self.entries@[a] == s0[a]);
                        assert(self.entries@[b] == s0[b]);
                    } else if a < i && b == i {
                        assert(self.entries@[a] == s0[a]);
                    } else if a < i && b > i {
                        assert(self.entries@[a] == s0[a]);
                        assert(self.entries@[b] == s0[b - 1]);
                    } else if a == i && b > i {
                        assert(self.entries@[b] == s0[b - 1]);
                    } else {
                        assert(self.entries@[a] == s0[a - 1]);
                        assert(self.entries@[b] == s0[b - 1]);
                    }
                }
            }
        }
    }

    /// Unbinds a key. Removing an absent key is a silent no-op: the base map
    /// does not signal absence.
    pub fn remove(&mut self, key: u128)
        requires
            old(self).wf(),
        ensures
            final(self).wf(),
            final(self).as_map() == old(self).as_map().remove(key),
    {
        let ghost s0 = self.entries@;
        let i = self.find(key);
        if i < self.entries.len() && self.entries[i].key == key {
            let _removed = self.entries.remove(i);
            proof {
                assert(self.entries@ =~= s0.remove(i as int));
                lemma_num_entries_map_remove(s0, i as int);
                assert forall|a: int, b: int|
                    0 <= a < b < self.entries@.len() implies self.entries@[a].key
                    < self.entries@[b].key by {
                    assert(self.entries@[a] == (if a < i { s0[a] } else { s0[a + 1] }));
                    assert(self.entries@[b] == (if b < i { s0[b] } else { s0[b + 1] }));
                }
            }
        } else {
            proof {
                lemma_num_position_absent(s0, key, i as int);
                lemma_num_entries_map_absent(s0, key);
                assert(self.as_map() =~= old(self).as_map().remove(key));
            }
        }
    }

    /// The least key, or nothing when the map is empty.
    pub fn min_key(&self) -> (r: Option<u128>)
        requires
            self.wf(),
        ensures
            match r {
                Some(k) => self.as_map().contains_key(k) && forall|k2: u128|
                    self.as_map().contains_key(k2) ==> k <= k2,
                None => self.entries@.len() == 0,
            },
    {
        if self.entries.len() == 0 {
            None
        } else {
            proof {
                lemma_num_entries_map_index(self.entries@, 0);
                assert forall|k2: u128|
                    self.as_map().contains_key(k2) implies self.entries@[0].key <= k2 by {
                    lemma_num_entries_map_contains_exists(self.entries@, k2);
                }
            }
            Some(self.entries[0].key)
        }
    }

    /// The greatest key, or nothing when the map is empty.
    pub fn max_key(&self) -> (r: Option<u128>)
        requires
            self.wf(),
        ensures
            match r {
                Some(k) => self.as_map().contains_key(k) && forall|k2: u128|
                    self.as_map().contains_key(k2) ==> k2 <= k,
                None => self.entries@.len() == 0,
            },
    {
        if self.entries.len() == 0 {
            None
        } else {
            let last = self.entries.len() - 1;
            proof {
                lemma_num_entries_map_index(self.entries@, last as int);
                assert forall|k2: u128|
                    self.as_map().contains_key(k2) implies k2 <= self.entries@[last as int].key by {
                    lemma_num_entries_map_contains_exists(self.entries@, k2);
                }
            }
            Some(self.entries[last].key)
        }
    }

    /// The keys in traversal order: an in-order walk of the map.
    pub fn keys(&self) -> (r: Vec<u128>)
        ensures
            r@ == self.keys_in_order(),
    {
        let mut r: Vec<u128> = Vec::new();
        let mut i: usize = 0;
        while i < self.entries.len()
            invariant
                i <= self.entries@.len(),
                r@.len() == i,
                forall|j: int| 0 <= j < i ==> r@[j] == self.entries@[j].key,
            decreases self.entries@.len() - i,
        {
            r.push(self.entries[i].key);
            i = i + 1;
        }
        proof {
            assert(r@ =~= self.keys_in_order());
        }
        r
    }
}

} // verus!
