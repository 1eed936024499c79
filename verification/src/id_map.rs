//! An association map keyed by 128-bit peer identifiers.
//!
//! The map is stored as a vector of key-value pairs with strictly increasing
//! keys.  Keeping the representation sorted makes the iteration order a
//! function of the map contents alone, so that everything the engine derives
//! by folding over a map (most importantly the route table rebuild) is
//! deterministic: two maps holding the same entries are represented by the
//! same sequence.

use vstd::prelude::*;

verus! {

/// The keys of `s` are strictly increasing (hence unique).
pub open spec fn keys_sorted<T>(s: Seq<(u128, T)>) -> bool {
    forall|i: int, j: int| 0 <= i < j < s.len() ==> s[i].0 < s[j].0
}

/// Some entry of `s` carries the key `k`.
pub open spec fn entries_have_key<T>(s: Seq<(u128, T)>, k: u128) -> bool {
    exists|i: int| 0 <= i < s.len() && s[i].0 == k
}

/// The index of the entry carrying `k` (meaningful when the keys are unique).
pub open spec fn entry_index_of<T>(s: Seq<(u128, T)>, k: u128) -> int {
    choose|i: int| 0 <= i < s.len() && s[i].0 == k
}

/// The value stored beside `k`.
pub open spec fn entry_value_of<T>(s: Seq<(u128, T)>, k: u128) -> T {
    s[entry_index_of(s, k)].1
}

/// The map described by an entry sequence with unique keys.
pub open spec fn entries_to_map<T>(s: Seq<(u128, T)>) -> Map<u128, T> {
    Map::new(|k: u128| entries_have_key(s, k), |k: u128| entry_value_of(s, k))
}

/// `s` with `(k, v)` inserted at its sorted position, replacing an entry
/// that already carries `k`.
pub open spec fn sorted_insert<T>(s: Seq<(u128, T)>, k: u128, v: T) -> Seq<(u128, T)>
    decreases s.len(),
{
    if s.len() == 0 {
        seq![(k, v)]
    } else if k < s[0].0 {
        seq![(k, v)] + s
    } else if k == s[0].0 {
        seq![(k, v)] + s.drop_first()
    } else {
        seq![s[0]] + sorted_insert(s.drop_first(), k, v)
    }
}

/// `s` with the entry carrying `k` (if any) removed.
pub open spec fn sorted_remove<T>(s: Seq<(u128, T)>, k: u128) -> Seq<(u128, T)>
    decreases s.len(),
{
    if s.len() == 0 {
        s
    } else if s[0].0 == k {
        s.drop_first()
    } else {
        seq![s[0]] + sorted_remove(s.drop_first(), k)
    }
}

pub struct IdMap<T> {
    entries: Vec<(u128, T)>,
}

impl<T> View for IdMap<T> {
    type V = Map<u128, T>;

    closed spec fn view(&self) -> Map<u128, T> {
        entries_to_map(self.entries@)
    }
}

/// In a sequence with unique keys, the entry at `i` is what the lookup
/// spec functions find.
pub proof fn lemma_entry_at<T>(s: Seq<(u128, T)>, i: int)
    requires
        keys_sorted(s),
        0 <= i < s.len(),
    ensures
        entries_have_key(s, s[i].0),
        entry_index_of(s, s[i].0) == i,
        entry_value_of(s, s[i].0) == s[i].1,
        entries_to_map(s).contains_key(s[i].0),
        entries_to_map(s)[s[i].0] == s[i].1,
{
    assert(entries_have_key(s, s[i].0));
    let j = entry_index_of(s, s[i].0);
    if j < i {
        assert(s[j].0 < s[i].0);
    } else if j > i {
        assert(s[i].0 < s[j].0);
    }
}

impl<T> IdMap<T> {
    /// The underlying entry sequence, sorted by key.
    pub closed spec fn entries_seq(&self) -> Seq<(u128, T)> {
        self.entries@
    }

    /// The sortedness invariant of the representation.
    pub closed spec fn wf(&self) -> bool {
        keys_sorted(self.entries@)
    }

    pub proof fn lemma_wf_entries(&self)
        requires
            self.wf(),
        ensures
            keys_sorted(self.entries_seq()),
            self@ == entries_to_map(self.entries_seq()),
    {
    }

    pub fn new() -> (r: Self)
        ensures
            r.wf(),
            r@ == Map::<u128, T>::empty(),
            r.entries_seq() == Seq::<(u128, T)>::empty(),
    {
        let r = IdMap { entries: Vec::new() };
        proof {
            assert(r@ =~= Map::<u128, T>::empty());
            assert(r.entries@ =~= Seq::<(u128, T)>::empty());
        }
        r
    }

    pub fn len(&self) -> (r: usize)
        ensures
            r == self.entries_seq().len(),
    {
        self.entries.len()
    }

    pub fn entry_at(&self, i: usize) -> (r: &(u128, T))
        requires
            i < self.entries_seq().len(),
        ensures
            *r == self.entries_seq()[i as int],
    {
        &self.entries[i]
    }

    pub fn get(&self, k: u128) -> (r: Option<&T>)
        requires
            self.wf(),
        ensures
            match r {
                Some(v) => self@.contains_key(k) && *v == self@[k],
                None => !self@.contains_key(k),
            },
    {
        let n = self.entries.len();
        let mut i: usize = 0;
        while i < n
            invariant
                n == self.entries@.len(),
                keys_sorted(self.entries@),
                forall|j: int| 0 <= j < i ==> self.entries@[j].0 != k,
            decreases n - i,
        {
            if self.entries[i].0 == k {
                proof {
                    lemma_entry_at(self.entries@, i as int);
                }
                return Some(&self.entries[i].1);
            }
            i += 1;
        }
        proof {
            if self@.contains_key(k) {
                let j = entry_index_of(self.entries@, k);
                assert(self.entries@[j].0 == k);
            }
        }
        None
    }

    pub fn contains_key(&self, k: u128) -> (r: bool)
        requires
            self.wf(),
        ensures
            r == self@.contains_key(k),
    {
        match self.get(k) {
            Some(_) => true,
            None => false,
        }
    }

    pub fn insert(&mut self, k: u128, v: T)
        requires
            old(self).wf(),
        ensures
            final(self).wf(),
            final(self)@ == old(self)@.insert(k, v),
            final(self).entries_seq() == sorted_insert(old(self).entries_seq(), k, v),
    {
        let ghost s = self.entries@;
        let n = self.entries.len();
        let mut i: usize = 0;
        while i < n && self.entries[i].0 < k
            invariant
                n == self.entries@.len(),
                self.entries@ == s,
                i <= n,
                forall|j: int| 0 <= j < i ==> s[j].0 < k,
            decreases n - i,
        {
            i += 1;
        }
        proof {
            lemma_sorted_insert_shape(s, k, v, i as int);
            lemma_sorted_insert_map(s, k, v, i as int);
        }
        if i < n && self.entries[i].0 == k {
            self.entries.remove(i);
            self.entries.insert(i, (k, v));
            proof {
                assert(self.entries@ =~= s.update(i as int, (k, v)));
            }
        } else {
            self.entries.insert(i, (k, v));
        }
    }

    pub fn remove(&mut self, k: u128)
        requires
            old(self).wf(),
        ensures
            final(self).wf(),
            final(self)@ == old(self)@.remove(k),
            final(self).entries_seq() == sorted_remove(old(self).entries_seq(), k),
    {
        let ghost s = self.entries@;
        let n = self.entries.len();
        let mut i: usize = 0;
        while i < n && self.entries[i].0 != k
            invariant
                n == self.entries@.len(),
                self.entries@ == s,
                i <= n,
                forall|j: int| 0 <= j < i ==> s[j].0 != k,
            decreases n - i,
        {
            i += 1;
        }
        if i < n {
            self.entries.remove(i);
            proof {
                lemma_sorted_remove_shape(s, k, i as int);
                lemma_sorted_remove_map(s, k, i as int);
            }
        } else {
            proof {
                lemma_sorted_remove_absent(s, k);
                assert(self@ =~= old(self)@.remove(k));
            }
        }
    }
}

/// Inserting at the first position whose key is not below `k` is what
/// `sorted_insert` describes, and it keeps the keys sorted.
pub proof fn lemma_sorted_insert_shape<T>(s: Seq<(u128, T)>, k: u128, v: T, i: int)
    requires
        keys_sorted(s),
        0 <= i <= s.len(),
        forall|j: int| 0 <= j < i ==> s[j].0 < k,
        i < s.len() ==> s[i].0 >= k,
    ensures
        sorted_insert(s, k, v) == if i < s.len() && s[i].0 == k {
            s.update(i, (k, v))
        } else {
            s.insert(i, (k, v))
        },
        keys_sorted(sorted_insert(s, k, v)),
    decreases s.len(),
{
    if i == 0 {
        if s.len() == 0 {
            assert(sorted_insert(s, k, v) =~= s.insert(0, (k, v)));
        } else if s[0].0 == k {
            assert(sorted_insert(s, k, v) =~= s.update(0, (k, v)));
        } else {
            assert(k < s[0].0);
            assert(sorted_insert(s, k, v) =~= s.insert(0, (k, v)));
        }
    } else {
        let t = s.drop_first();
        assert(s[0].0 < k);
        assert(keys_sorted(t)) by {
            assert(forall|x: int, y: int|
                0 <= x < y < t.len() ==> t[x].0 == s[x + 1].0 && t[y].0 == s[y + 1].0);
        }
        assert(forall|j: int| 0 <= j < i - 1 ==> t[j].0 == s[j + 1].0 && t[j].0 < k);
        assert(i - 1 < t.len() ==> t[i - 1].0 == s[i].0);
        lemma_sorted_insert_shape(t, k, v, i - 1);
        if i < s.len() && s[i].0 == k {
            assert(sorted_insert(s, k, v) =~= s.update(i, (k, v))) by {
                assert(sorted_insert(s, k, v) == seq![s[0]] + sorted_insert(t, k, v));
                assert(sorted_insert(t, k, v) == t.update(i - 1, (k, v)));
            }
            assert(keys_sorted(s.update(i, (k, v))));
        } else {
            assert(sorted_insert(s, k, v) =~= s.insert(i, (k, v))) by {
                assert(sorted_insert(s, k, v) == seq![s[0]] + sorted_insert(t, k, v));
                assert(sorted_insert(t, k, v) == t.insert(i - 1, (k, v)));
            }
            let r = s.insert(i, (k, v));
            assert(keys_sorted(r)) by {
                assert(forall|j: int| 0 <= j < i ==> r[j] == s[j]);
                assert(r[i] == (k, v));
                assert(forall|j: int| i < j < r.len() ==> r[j] == s[j - 1]);
                assert forall|j: int| i < j < r.len() implies #[trigger] r[j].0 > k by {
                    assert(s[i].0 > k);
                    assert(r[j] == s[j - 1]);
                    assert(s[j - 1].0 >= s[i].0);
                }
            }
        }
    }
}

/// Inserting into a sorted entry sequence inserts into the described map.
pub proof fn lemma_sorted_insert_map<T>(s: Seq<(u128, T)>, k: u128, v: T, i: int)
    requires
        keys_sorted(s),
        0 <= i <= s.len(),
        forall|j: int| 0 <= j < i ==> s[j].0 < k,
        i < s.len() ==> s[i].0 >= k,
    ensures
        entries_to_map(sorted_insert(s, k, v)) == entries_to_map(s).insert(k, v),
{
    lemma_sorted_insert_shape(s, k, v, i);
    let r = sorted_insert(s, k, v);
    assert forall|k2: u128| #[trigger] entries_have_key(r, k2) <==> (entries_have_key(s, k2)
        || k2 == k) by {
        if entries_have_key(r, k2) {
            let j = entry_index_of(r, k2);
            if k2 != k {
                if i < s.len() && s[i].0 == k {
                    assert(j != i && r[j] == s[j]);
                } else {
                    if j < i {
                        assert(r[j] == s[j]);
                    } else if j > i {
                        assert(r[j] == s[j - 1]);
                    }
                }
            }
        }
        if entries_have_key(s, k2) && k2 != k {
            let j = entry_index_of(s, k2);
            if i < s.len() && s[i].0 == k {
                assert(r[j] == s[j]);
                assert(entries_have_key(r, k2));
            } else {
                if j < i {
                    assert(r[j] == s[j]);
                    assert(entries_have_key(r, k2));
                } else {
                    assert(r[j + 1] == s[j]);
                    assert(entries_have_key(r, k2));
                }
            }
        }
        if k2 == k {
            assert(r[i] == (k, v));
            assert(entries_have_key(r, k2));
        }
    }
    assert forall|k2: u128| entries_have_key(r, k2) implies #[trigger] entry_value_of(r, k2)
        == if k2 == k { v } else { entry_value_of(s, k2) } by {
        let j = entry_index_of(r, k2);
        lemma_entry_at(r, j);
        if k2 == k {
            assert(r[i].0 == k);
            lemma_entry_at(r, i);
        } else {
            if i < s.len() && s[i].0 == k {
                assert(r[j] == s[j]);
                lemma_entry_at(s, j);
            } else {
                if j < i {
                    assert(r[j] == s[j]);
                    lemma_entry_at(s, j);
                } else {
                    assert(j != i);
                    assert(r[j] == s[j - 1]);
                    lemma_entry_at(s, j - 1);
                }
            }
        }
    }
    assert(entries_to_map(r) =~= entries_to_map(s).insert(k, v));
}

/// Removing the entry at the position carrying `k` is what `sorted_remove`
/// describes, and it keeps the keys sorted.
pub proof fn lemma_sorted_remove_shape<T>(s: Seq<(u128, T)>, k: u128, i: int)
    requires
        keys_sorted(s),
        0 <= i < s.len(),
        s[i].0 == k,
    ensures
        sorted_remove(s, k) == s.remove(i),
        keys_sorted(s.remove(i)),
    decreases s.len(),
{
    if i == 0 {
        assert(sorted_remove(s, k) =~= s.remove(0));
    } else {
        let t = s.drop_first();
        assert(keys_sorted(t)) by {
            assert(forall|x: int, y: int|
                0 <= x < y < t.len() ==> t[x].0 == s[x + 1].0 && t[y].0 == s[y + 1].0);
        }
        assert(t[i - 1].0 == k);
        assert(s[0].0 != k);
        lemma_sorted_remove_shape(t, k, i - 1);
        assert(sorted_remove(s, k) =~= s.remove(i)) by {
            assert(sorted_remove(s, k) == seq![s[0]] + sorted_remove(t, k));
            assert(sorted_remove(t, k) == t.remove(i - 1));
        }
    }
    let r = s.remove(i);
    assert(keys_sorted(r)) by {
        assert(forall|j: int| 0 <= j < i ==> r[j] == s[j]);
        assert(forall|j: int| i <= j < r.len() ==> r[j] == s[j + 1]);
    }
}

/// Removing an entry from a sorted entry sequence removes it from the
/// described map.
pub proof fn lemma_sorted_remove_map<T>(s: Seq<(u128, T)>, k: u128, i: int)
    requires
        keys_sorted(s),
        0 <= i < s.len(),
        s[i].0 == k,
    ensures
        entries_to_map(sorted_remove(s, k)) == entries_to_map(s).remove(k),
{
    lemma_sorted_remove_shape(s, k, i);
    let r = s.remove(i);
    assert forall|k2: u128| #[trigger] entries_have_key(r, k2) <==> (entries_have_key(s, k2)
        && k2 != k) by {
        if entries_have_key(r, k2) {
            let j = entry_index_of(r, k2);
            if j < i {
                assert(r[j] == s[j]);
                assert(entries_have_key(s, k2));
                assert(s[j].0 != s[i].0);
            } else {
                assert(r[j] == s[j + 1]);
                assert(entries_have_key(s, k2));
                assert(s[j + 1].0 != s[i].0);
            }
        }
        if entries_have_key(s, k2) && k2 != k {
            let j = entry_index_of(s, k2);
            assert(j != i);
            if j < i {
                assert(r[j] == s[j]);
                assert(entries_have_key(r, k2));
            } else {
                assert(r[j - 1] == s[j]);
                assert(entries_have_key(r, k2));
            }
        }
    }
    assert forall|k2: u128| entries_have_key(r, k2) implies #[trigger] entry_value_of(r, k2)
        == entry_value_of(s, k2) by {
        let j = entry_index_of(r, k2);
        lemma_entry_at(r, j);
        if j < i {
            assert(r[j] == s[j]);
            lemma_entry_at(s, j);
        } else {
            assert(r[j] == s[j + 1]);
            lemma_entry_at(s, j + 1);
        }
    }
    assert(entries_to_map(r) =~= entries_to_map(s).remove(k));
}

/// Insertion keeps the keys sorted, and every entry of the result is the
/// inserted binding or an entry of the original sequence.
pub proof fn lemma_sorted_insert_entries<T>(s: Seq<(u128, T)>, k: u128, v: T)
    requires
        keys_sorted(s),
    ensures
        keys_sorted(sorted_insert(s, k, v)),
        forall|j: int|
            0 <= j < sorted_insert(s, k, v).len() ==> #[trigger] sorted_insert(s, k, v)[j] == (
            k,
            v,
            ) || s.contains(sorted_insert(s, k, v)[j]),
    decreases s.len(),
{
    let r = sorted_insert(s, k, v);
    if s.len() == 0 {
        assert(r[0] == (k, v));
    } else if k < s[0].0 {
        assert(r[0] == (k, v));
        assert(forall|j: int| 1 <= j < r.len() ==> r[j] == s[j - 1] && s.contains(s[j - 1]));
    } else if k == s[0].0 {
        let t = s.drop_first();
        assert(r[0] == (k, v));
        assert(forall|j: int| 1 <= j < r.len() ==> r[j] == s[j] && s.contains(s[j]));
    } else {
        let t = s.drop_first();
        assert(keys_sorted(t)) by {
            assert(forall|x: int, y: int|
                0 <= x < y < t.len() ==> t[x] == s[x + 1] && t[y] == s[y + 1]);
        }
        lemma_sorted_insert_entries(t, k, v);
        let rt = sorted_insert(t, k, v);
        assert(r == seq![s[0]] + rt);
        assert(forall|i: int| 0 <= i < t.len() ==> t[i] == s[i + 1]);
        assert forall|j: int| 0 <= j < r.len() implies #[trigger] r[j] == (k, v) || s.contains(
            r[j],
        ) by {
            if j == 0 {
                assert(r[0] == s[0] && s.contains(s[0]));
            } else {
                assert(r[j] == rt[j - 1]);
                if rt[j - 1] == (k, v) {
                } else {
                    assert(t.contains(rt[j - 1]));
                    let x = choose|x: int| 0 <= x < t.len() && t[x] == rt[j - 1];
                    assert(s[x + 1] == rt[j - 1]);
                    assert(s.contains(rt[j - 1]));
                }
            }
        }
        assert forall|j: int| 1 <= j < r.len() implies s[0].0 < (#[trigger] r[j]).0 by {
            assert(r[j] == rt[j - 1]);
            if rt[j - 1] == (k, v) {
            } else {
                assert(t.contains(rt[j - 1]));
                let x = choose|x: int| 0 <= x < t.len() && t[x] == rt[j - 1];
                assert(s[x + 1] == rt[j - 1]);
            }
        }
        assert(keys_sorted(r)) by {
            assert(forall|x: int, y: int|
                1 <= x < y < r.len() ==> r[x] == rt[x - 1] && r[y] == rt[y - 1]);
        }
    }
}

/// Removing a key that no entry carries leaves the sequence unchanged.
pub proof fn lemma_sorted_remove_absent<T>(s: Seq<(u128, T)>, k: u128)
    requires
        forall|j: int| 0 <= j < s.len() ==> s[j].0 != k,
    ensures
        sorted_remove(s, k) == s,
    decreases s.len(),
{
    if s.len() > 0 {
        let t = s.drop_first();
        assert(forall|j: int| 0 <= j < t.len() ==> t[j] == s[j + 1]);
        lemma_sorted_remove_absent(t, k);
        assert(sorted_remove(s, k) =~= s);
    }
}

/// The described map agrees with the entry-level lookup functions.
pub proof fn lemma_map_lookup<T>(s: Seq<(u128, T)>, k: u128)
    ensures
        entries_to_map(s).contains_key(k) == entries_have_key(s, k),
        entries_have_key(s, k) ==> entries_to_map(s)[k] == entry_value_of(s, k),
{
    assert(entries_to_map(s).dom() =~= Set::new(|k2: u128| entries_have_key(s, k2)));
}

/// How many leading entries of `s` carry a key below `k`.
pub open spec fn lower_count<T>(s: Seq<(u128, T)>, k: u128) -> int
    decreases s.len(),
{
    if s.len() == 0 {
        0
    } else if s[0].0 < k {
        1 + lower_count(s.drop_first(), k)
    } else {
        0
    }
}

/// In a sorted sequence, `lower_count` is the insertion position for `k`.
pub proof fn lemma_lower_count<T>(s: Seq<(u128, T)>, k: u128)
    requires
        keys_sorted(s),
    ensures
        0 <= lower_count(s, k) <= s.len(),
        forall|j: int| 0 <= j < lower_count(s, k) ==> (#[trigger] s[j]).0 < k,
        lower_count(s, k) < s.len() ==> s[lower_count(s, k)].0 >= k,
    decreases s.len(),
{
    if s.len() > 0 && s[0].0 < k {
        let t = s.drop_first();
        assert(keys_sorted(t)) by {
            assert(forall|x: int, y: int|
                0 <= x < y < t.len() ==> t[x] == s[x + 1] && t[y] == s[y + 1]);
        }
        lemma_lower_count(t, k);
        assert(forall|j: int| 0 <= j < t.len() ==> t[j] == s[j + 1]);
        assert forall|j: int| 0 <= j < lower_count(s, k) implies (#[trigger] s[j]).0 < k by {
            if j > 0 {
                assert(t[j - 1].0 < k);
            }
        }
    }
}

/// Sorted insertion, without naming the position: the result is sorted and
/// describes the map with `k` bound to `v`.
pub proof fn lemma_sorted_insert_resolved<T>(s: Seq<(u128, T)>, k: u128, v: T)
    requires
        keys_sorted(s),
    ensures
        keys_sorted(sorted_insert(s, k, v)),
        entries_to_map(sorted_insert(s, k, v)) == entries_to_map(s).insert(k, v),
{
    lemma_lower_count(s, k);
    let i = lower_count(s, k);
    lemma_sorted_insert_shape(s, k, v, i);
    lemma_sorted_insert_map(s, k, v, i);
}

/// Two sorted entry sequences that describe the same map are the same
/// sequence: the representation is canonical.
pub proof fn lemma_entries_canonical<T>(s1: Seq<(u128, T)>, s2: Seq<(u128, T)>)
    requires
        keys_sorted(s1),
        keys_sorted(s2),
        entries_to_map(s1) == entries_to_map(s2),
    ensures
        s1 == s2,
    decreases s1.len(),
{
    if s1.len() == 0 {
        if s2.len() > 0 {
            lemma_entry_at(s2, 0);
            assert(entries_to_map(s2).contains_key(s2[0].0));
            assert(entries_have_key(s1, s2[0].0));
        }
        assert(s1 =~= s2);
    } else {
        lemma_entry_at(s1, 0);
        assert(entries_to_map(s2).contains_key(s1[0].0));
        if s2.len() == 0 {
            assert(entries_have_key(s2, s1[0].0));
            assert(false);
        }
        lemma_entry_at(s2, 0);
        // The first key of each sequence is the least key of the map,
        // so the first entries agree.
        let j1 = entry_index_of(s2, s1[0].0);
        assert(s2[0].0 <= s2[j1].0 == s1[0].0) by {
            if j1 > 0 {
                assert(s2[0].0 < s2[j1].0);
            }
        }
        let j2 = entry_index_of(s1, s2[0].0);
        assert(s1[0].0 <= s1[j2].0 == s2[0].0) by {
            if j2 > 0 {
                assert(s1[0].0 < s1[j2].0);
            }
        }
        assert(s1[0].0 == s2[0].0);
        assert(s1[0].1 == entry_value_of(s1, s1[0].0));
        assert(s2[0].1 == entry_value_of(s2, s2[0].0));
        assert(s1[0] == s2[0]);
        let t1 = s1.drop_first();
        let t2 = s2.drop_first();
        lemma_sorted_remove_shape(s1, s1[0].0, 0);
        lemma_sorted_remove_map(s1, s1[0].0, 0);
        lemma_sorted_remove_shape(s2, s2[0].0, 0);
        lemma_sorted_remove_map(s2, s2[0].0, 0);
        assert(t1 =~= s1.remove(0));
        assert(t2 =~= s2.remove(0));
        assert(keys_sorted(t1));
        assert(keys_sorted(t2));
        assert(entries_to_map(t1) == entries_to_map(t2));
        lemma_entries_canonical(t1, t2);
        assert(s1.len() == s2.len());
        assert forall|j: int| 0 <= j < s1.len() implies s1[j] == s2[j] by {
            if j > 0 {
                assert(s1[j] == t1[j - 1]);
                assert(s2[j] == t2[j - 1]);
            }
        }
        assert(s1 =~= s2);
    }
}

} // verus!
