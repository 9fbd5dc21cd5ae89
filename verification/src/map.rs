//! A map keyed by 32-byte strings (addresses and hashes), kept as a list of
//! entries in insertion order with no key twice.
use vstd::prelude::*;
use crate::crypto::bytes32_eq;

verus! {

broadcast use vstd::array::group_array_axioms;

/// No key occurs twice in `s`.
pub open spec fn keys_distinct<V>(s: Seq<(Seq<u8>, V)>) -> bool {
    forall|i: int, j: int| 0 <= i < j < s.len() ==> #[trigger] s[i].0 != #[trigger] s[j].0
}

/// `k` is the key of some entry of `s`.
pub open spec fn has_key<V>(s: Seq<(Seq<u8>, V)>, k: Seq<u8>) -> bool {
    exists|i: int| 0 <= i < s.len() && #[trigger] s[i].0 == k
}

/// The position of the entry with key `k` (meaningful when there is one).
pub open spec fn key_index<V>(s: Seq<(Seq<u8>, V)>, k: Seq<u8>) -> int {
    choose|i: int| 0 <= i < s.len() && #[trigger] s[i].0 == k
}

/// The map that a list of entries stands for.
pub open spec fn entries_to_map<V>(s: Seq<(Seq<u8>, V)>) -> Map<Seq<u8>, V> {
    Map::new(|k: Seq<u8>| has_key(s, k), |k: Seq<u8>| s[key_index(s, k)].1)
}

/// The entries after setting `k` to `v`: an entry with key `k` keeps its
/// position, otherwise the new entry goes last.
pub open spec fn entries_insert<V>(s: Seq<(Seq<u8>, V)>, k: Seq<u8>, v: V) -> Seq<(Seq<u8>, V)> {
    if has_key(s, k) {
        s.update(key_index(s, k), (k, v))
    } else {
        s.push((k, v))
    }
}

/// The entries after removing key `k`; the others keep their order.
pub open spec fn entries_remove<V>(s: Seq<(Seq<u8>, V)>, k: Seq<u8>) -> Seq<(Seq<u8>, V)> {
    if has_key(s, k) {
        s.remove(key_index(s, k))
    } else {
        s
    }
}

/// With distinct keys, the entry at `i` is what the map holds at its key.
pub proof fn lemma_entry_in_map<V>(s: Seq<(Seq<u8>, V)>, i: int)
    requires
        keys_distinct(s),
        0 <= i < s.len(),
    ensures
        entries_to_map(s).contains_key(s[i].0),
        key_index(s, s[i].0) == i,
        entries_to_map(s)[s[i].0] == s[i].1,
{
    assert(has_key(s, s[i].0));
    let j = key_index(s, s[i].0);
    if j < i {
        assert(s[j].0 != s[i].0);
    } else if j > i {
        assert(s[i].0 != s[j].0);
    }
}

/// Replacing the value of the entry at `i` updates the map at its key.
pub proof fn lemma_update_entry<V>(s: Seq<(Seq<u8>, V)>, i: int, v: V)
    requires
        keys_distinct(s),
        0 <= i < s.len(),
    ensures
        keys_distinct(s.update(i, (s[i].0, v))),
        entries_to_map(s.update(i, (s[i].0, v))) == entries_to_map(s).insert(s[i].0, v),
{
    let t = s.update(i, (s[i].0, v));
    assert forall|a: int, b: int| 0 <= a < b < t.len() implies #[trigger] t[a].0 != #[trigger] t[b].0 by {
        assert(s[a].0 != s[b].0);
    }
    let m = entries_to_map(s).insert(s[i].0, v);
    assert forall|k: Seq<u8>| #[trigger] entries_to_map(t).contains_key(k) <==> m.contains_key(k) by {
        if has_key(s, k) {
            let j = key_index(s, k);
            assert(t[j].0 == k);
        }
        if has_key(t, k) {
            let j = key_index(t, k);
            assert(s[j].0 == k);
        }
    }
    assert forall|k: Seq<u8>| #[trigger] entries_to_map(t).contains_key(k) implies entries_to_map(t)[k]
        == m[k] by {
        let j = key_index(t, k);
        lemma_entry_in_map(t, j);
        if j != i {
            lemma_entry_in_map(s, j);
        }
    }
    assert(entries_to_map(t) =~= m);
}

/// Appending an entry with a new key inserts it into the map.
pub proof fn lemma_push_entry<V>(s: Seq<(Seq<u8>, V)>, k: Seq<u8>, v: V)
    requires
        keys_distinct(s),
        !has_key(s, k),
    ensures
        keys_distinct(s.push((k, v))),
        entries_to_map(s.push((k, v))) == entries_to_map(s).insert(k, v),
{
    let t = s.push((k, v));
    assert forall|a: int, b: int| 0 <= a < b < t.len() implies #[trigger] t[a].0 != #[trigger] t[b].0 by {
        if b == s.len() {
            assert(s[a].0 != k);
        } else {
            assert(s[a].0 != s[b].0);
        }
    }
    let m = entries_to_map(s).insert(k, v);
    assert forall|q: Seq<u8>| #[trigger] entries_to_map(t).contains_key(q) <==> m.contains_key(q) by {
        if has_key(s, q) {
            let j = key_index(s, q);
            assert(t[j].0 == q);
        }
        if q == k {
            assert(t[s.len() as int].0 == q);
        }
        if has_key(t, q) {
            let j = key_index(t, q);
            if j < s.len() {
                assert(s[j].0 == q);
            }
        }
    }
    assert forall|q: Seq<u8>| #[trigger] entries_to_map(t).contains_key(q) implies entries_to_map(t)[q]
        == m[q] by {
        let j = key_index(t, q);
        lemma_entry_in_map(t, j);
        if j < s.len() {
            lemma_entry_in_map(s, j);
        }
    }
    assert(entries_to_map(t) =~= m);
}

/// Removing the entry at `i` removes its key from the map.
pub proof fn lemma_remove_entry<V>(s: Seq<(Seq<u8>, V)>, i: int)
    requires
        keys_distinct(s),
        0 <= i < s.len(),
    ensures
        keys_distinct(s.remove(i)),
        entries_to_map(s.remove(i)) == entries_to_map(s).remove(s[i].0),
{
    let t = s.remove(i);
    assert forall|a: int, b: int| 0 <= a < b < t.len() implies #[trigger] t[a].0 != #[trigger] t[b].0 by {
        let a2 = if a < i { a } else { a + 1 };
        let b2 = if b < i { b } else { b + 1 };
        assert(t[a] == s[a2]);
        assert(t[b] == s[b2]);
        assert(s[a2].0 != s[b2].0);
    }
    let m = entries_to_map(s).remove(s[i].0);
    assert forall|q: Seq<u8>| #[trigger] entries_to_map(t).contains_key(q) <==> m.contains_key(q) by {
        if has_key(s, q) && q != s[i].0 {
            let j = key_index(s, q);
            if j < i {
                assert(t[j] == s[j]);
            } else {
                assert(j != i);
                assert(t[j - 1] == s[j]);
            }
        }
        if has_key(t, q) {
            let j = key_index(t, q);
            let j2 = if j < i { j } else { j + 1 };
            assert(t[j] == s[j2]);
            assert(s[j2].0 != s[i].0) by {
                if j2 < i {
                } else {
                }
            }
        }
    }
    assert forall|q: Seq<u8>| #[trigger] entries_to_map(t).contains_key(q) implies entries_to_map(t)[q]
        == m[q] by {
        let j = key_index(t, q);
        lemma_entry_in_map(t, j);
        let j2 = if j < i { j } else { j + 1 };
        assert(t[j] == s[j2]);
        lemma_entry_in_map(s, j2);
    }
    assert(entries_to_map(t) =~= m);
}

/// Two entry lists with the same keys in the same positions have the same
/// key positions.
pub proof fn lemma_same_keys<V, W>(s: Seq<(Seq<u8>, V)>, t: Seq<(Seq<u8>, W)>, k: Seq<u8>)
    requires
        keys_distinct(s),
        s.len() == t.len(),
        forall|i: int| 0 <= i < s.len() ==> #[trigger] s[i].0 == t[i].0,
    ensures
        keys_distinct(t),
        has_key(t, k) == has_key(s, k),
        has_key(s, k) ==> key_index(t, k) == key_index(s, k),
{
    assert forall|a: int, b: int| 0 <= a < b < t.len() implies #[trigger] t[a].0 != #[trigger] t[b].0 by {
        assert(s[a].0 != s[b].0);
        assert(s[a].0 == t[a].0);
        assert(s[b].0 == t[b].0);
    }
    if has_key(s, k) {
        let i = key_index(s, k);
        assert(t[i].0 == k);
        lemma_entry_in_map(t, i);
    }
    if has_key(t, k) {
        let i = key_index(t, k);
        assert(s[i].0 == k);
    }
}

/// Inserting an entry with a new key at position `p` inserts it into the
/// map.
pub proof fn lemma_insert_entry<V>(s: Seq<(Seq<u8>, V)>, p: int, k: Seq<u8>, v: V)
    requires
        keys_distinct(s),
        !has_key(s, k),
        0 <= p <= s.len(),
    ensures
        keys_distinct(s.insert(p, (k, v))),
        entries_to_map(s.insert(p, (k, v))) == entries_to_map(s).insert(k, v),
{
    let t = s.insert(p, (k, v));
    assert forall|a: int, b: int| 0 <= a < b < t.len() implies #[trigger] t[a].0 != #[trigger] t[b].0 by {
        if a == p {
            let b2 = b - 1;
            assert(t[b] == s[b2]);
        } else if b == p {
            assert(t[a] == s[a]);
        } else {
            let a2 = if a < p { a } else { a - 1 };
            let b2 = if b < p { b } else { b - 1 };
            assert(t[a] == s[a2]);
            assert(t[b] == s[b2]);
            assert(s[a2].0 != s[b2].0);
        }
    }
    let m = entries_to_map(s).insert(k, v);
    assert forall|q: Seq<u8>| #[trigger] entries_to_map(t).contains_key(q) <==> m.contains_key(q) by {
        if has_key(s, q) {
            let j = key_index(s, q);
            let j2 = if j < p { j } else { j + 1 };
            assert(t[j2] == s[j]);
        }
        if q == k {
            assert(t[p].0 == q);
        }
        if has_key(t, q) {
            let j = key_index(t, q);
            if j < p {
                assert(t[j] == s[j]);
            } else if j > p {
                assert(t[j] == s[j - 1]);
            }
        }
    }
    assert forall|q: Seq<u8>| #[trigger] entries_to_map(t).contains_key(q) implies entries_to_map(t)[q]
        == m[q] by {
        let j = key_index(t, q);
        lemma_entry_in_map(t, j);
        if j < p {
            assert(t[j] == s[j]);
            lemma_entry_in_map(s, j);
        } else if j > p {
            assert(t[j] == s[j - 1]);
            lemma_entry_in_map(s, j - 1);
        }
    }
    assert(entries_to_map(t) =~= m);
}

/// The entries with every value mapped by `f`.
pub open spec fn entries_map_values<V, W>(s: Seq<(Seq<u8>, V)>, f: spec_fn(V) -> W) -> Seq<
    (Seq<u8>, W),
> {
    s.map_values(|e: (Seq<u8>, V)| (e.0, f(e.1)))
}

/// Mapping the values of the entries maps the values of the map.
pub proof fn lemma_entries_map_values<V, W>(s: Seq<(Seq<u8>, V)>, f: spec_fn(V) -> W)
    requires
        keys_distinct(s),
    ensures
        keys_distinct(entries_map_values(s, f)),
        entries_to_map(entries_map_values(s, f)) == entries_to_map(s).map_values(f),
{
    let t = entries_map_values(s, f);
    assert forall|a: int, b: int| 0 <= a < b < t.len() implies #[trigger] t[a].0 != #[trigger] t[b].0 by {
        assert(s[a].0 != s[b].0);
    }
    let m = entries_to_map(s).map_values(f);
    assert forall|q: Seq<u8>| #[trigger] entries_to_map(t).contains_key(q) <==> m.contains_key(q) by {
        if has_key(s, q) {
            let j = key_index(s, q);
            assert(t[j].0 == q);
        }
        if has_key(t, q) {
            let j = key_index(t, q);
            assert(s[j].0 == q);
        }
    }
    assert forall|q: Seq<u8>| #[trigger] entries_to_map(t).contains_key(q) implies entries_to_map(t)[q]
        == m[q] by {
        let j = key_index(t, q);
        lemma_entry_in_map(t, j);
        assert(s[j].0 == q);
        lemma_entry_in_map(s, j);
    }
    assert(entries_to_map(t) =~= m);
}

/// The empty list stands for the empty map.
pub proof fn lemma_empty_entries<V>(s: Seq<(Seq<u8>, V)>)
    requires
        s.len() == 0,
    ensures
        keys_distinct(s),
        entries_to_map(s) == Map::<Seq<u8>, V>::empty(),
{
    assert(entries_to_map(s) =~= Map::<Seq<u8>, V>::empty());
}

/// A map from 32-byte keys to values.
#[derive(Debug)]
pub struct ByteMap<V> {
    entries: Vec<([u8; 32], V)>,
}

impl<V> ByteMap<V> {
    /// The entries, in insertion order.
    pub closed spec fn entries(&self) -> Seq<(Seq<u8>, V)> {
        self.entries@.map_values(|e: ([u8; 32], V)| (e.0@, e.1))
    }

    pub open spec fn wf(&self) -> bool {
        keys_distinct(self.entries())
    }

    pub open spec fn view(&self) -> Map<Seq<u8>, V> {
        entries_to_map(self.entries())
    }

    pub fn new() -> (res: ByteMap<V>)
        ensures
            res.wf(),
            res.entries() == Seq::<(Seq<u8>, V)>::empty(),
            res@ == Map::<Seq<u8>, V>::empty(),
    {
        let res = ByteMap { entries: Vec::new() };
        assert(res.entries() =~= Seq::<(Seq<u8>, V)>::empty());
        proof {
            lemma_empty_entries(res.entries());
        }
        res
    }

    pub fn len(&self) -> (res: usize)
        ensures
            res == self.entries().len(),
    {
        self.entries.len()
    }

    pub fn is_empty(&self) -> (res: bool)
        ensures
            res == (self.entries().len() == 0),
    {
        self.entries.len() == 0
    }

    /// The key of the entry at `i`.
    pub fn key_at(&self, i: usize) -> (res: [u8; 32])
        requires
            i < self.entries().len(),
        ensures
            res@ == self.entries()[i as int].0,
    {
        self.entries[i].0
    }

    /// The value of the entry at `i`.
    pub fn value_at(&self, i: usize) -> (res: &V)
        requires
            i < self.entries().len(),
        ensures
            *res == self.entries()[i as int].1,
    {
        &self.entries[i].1
    }

    /// The position of the entry with key `k`, if there is one.
    pub fn find(&self, k: &[u8; 32]) -> (res: Option<usize>)
        requires
            self.wf(),
        ensures
            res is None <==> !self@.contains_key(k@),
            res matches Some(i) ==> i < self.entries().len() && self.entries()[i as int].0 == k@
                && key_index(self.entries(), k@) == i,
    {
        let mut i: usize = 0;
        while i < self.entries.len()
            invariant
                i <= self.entries@.len(),
                self.entries().len() == self.entries@.len(),
                keys_distinct(self.entries()),
                forall|j: int| 0 <= j < i ==> self.entries()[j].0 != k@,
            decreases self.entries@.len() - i,
        {
            if bytes32_eq(&self.entries[i].0, k) {
                proof {
                    lemma_entry_in_map(self.entries(), i as int);
                }
                return Some(i);
            }
            i += 1;
        }
        proof {
            if self@.contains_key(k@) {
                let j = key_index(self.entries(), k@);
                assert(self.entries()[j].0 == k@);
            }
        }
        None
    }

    pub fn get(&self, k: &[u8; 32]) -> (res: Option<&V>)
        requires
            self.wf(),
        ensures
            res is None <==> !self@.contains_key(k@),
            res matches Some(v) ==> *v == self@[k@],
    {
        match self.find(k) {
            Some(i) => {
                proof {
                    lemma_entry_in_map(self.entries(), i as int);
                }
                Some(&self.entries[i].1)
            },
            None => None,
        }
    }

    pub fn contains_key(&self, k: &[u8; 32]) -> (res: bool)
        requires
            self.wf(),
        ensures
            res == self@.contains_key(k@),
    {
        self.find(k).is_some()
    }

    /// Sets the value at `k`: an entry already there keeps its position, a
    /// new one goes last.
    pub fn insert(&mut self, k: [u8; 32], v: V)
        requires
            old(self).wf(),
        ensures
            final(self).wf(),
            final(self)@ == old(self)@.insert(k@, v),
            final(self).entries() == entries_insert(old(self).entries(), k@, v),
            old(self)@.contains_key(k@) ==> final(self).entries() == old(self).entries().update(
                key_index(old(self).entries(), k@),
                (k@, v),
            ),
            !old(self)@.contains_key(k@) ==> final(self).entries() == old(self).entries().push(
                (k@, v),
            ),
    {
        match self.find(&k) {
            Some(i) => {
                proof {
                    lemma_update_entry(self.entries(), i as int, v);
                }
                self.entries.set(i, (k, v));
                assert(self.entries() =~= old(self).entries().update(i as int, (k@, v)));
            },
            None => {
                proof {
                    lemma_push_entry(self.entries(), k@, v);
                }
                self.entries.push((k, v));
                assert(self.entries() =~= old(self).entries().push((k@, v)));
            },
        }
    }

    /// Removes the entry at `k`, if there is one, and returns its value; the
    /// other entries keep their order.
    pub fn remove(&mut self, k: &[u8; 32]) -> (res: Option<V>)
        requires
            old(self).wf(),
        ensures
            final(self).wf(),
            final(self)@ == old(self)@.remove(k@),
            res is None <==> !old(self)@.contains_key(k@),
            res matches Some(v) ==> v == old(self)@[k@],
            final(self).entries() == entries_remove(old(self).entries(), k@),
            old(self)@.contains_key(k@) ==> final(self).entries() == old(self).entries().remove(
                key_index(old(self).entries(), k@),
            ),
            !old(self)@.contains_key(k@) ==> final(self).entries() == old(self).entries(),
    {
        match self.find(k) {
            Some(i) => {
                proof {
                    lemma_remove_entry(self.entries(), i as int);
                    lemma_entry_in_map(self.entries(), i as int);
                }
                let (_, v) = self.entries.remove(i);
                assert(self.entries() =~= old(self).entries().remove(i as int));
                Some(v)
            },
            None => {
                assert(old(self)@.remove(k@) =~= old(self)@);
                None
            },
        }
    }

    /// Puts `v` in place of the value of the entry at `i` and returns the
    /// value that was there.
    pub fn replace_at(&mut self, i: usize, v: V) -> (res: V)
        requires
            old(self).wf(),
            i < old(self).entries().len(),
        ensures
            final(self).wf(),
            res == old(self).entries()[i as int].1,
            final(self).entries() == old(self).entries().update(
                i as int,
                (old(self).entries()[i as int].0, v),
            ),
            final(self)@ == old(self)@.insert(old(self).entries()[i as int].0, v),
    {
        proof {
            lemma_update_entry(self.entries(), i as int, v);
        }
        let (k, old_v) = self.entries.remove(i);
        self.entries.insert(i, (k, v));
        assert(self.entries() =~= old(self).entries().update(i as int, (old(self).entries()[i as int].0, v)));
        old_v
    }

    pub fn clear(&mut self)
        ensures
            final(self).wf(),
            final(self).entries() == Seq::<(Seq<u8>, V)>::empty(),
            final(self)@ == Map::<Seq<u8>, V>::empty(),
    {
        self.entries.clear();
        assert(self.entries() =~= Seq::<(Seq<u8>, V)>::empty());
        proof {
            lemma_empty_entries(self.entries());
        }
    }
}

impl<V: Copy> Clone for ByteMap<V> {
    fn clone(&self) -> (res: ByteMap<V>)
        ensures
            res.entries() == self.entries(),
    {
        let mut entries: Vec<([u8; 32], V)> = Vec::new();
        let mut i: usize = 0;
        while i < self.entries.len()
            invariant
                i <= self.entries@.len(),
                entries@ == self.entries@.subrange(0, i as int),
            decreases self.entries@.len() - i,
        {
            let e = self.entries[i];
            entries.push(e);
            assert(self.entries@.subrange(0, i + 1) =~= self.entries@.subrange(0, i as int).push(e));
            i += 1;
        }
        assert(self.entries@.subrange(0, i as int) =~= self.entries@);
        ByteMap { entries }
    }
}

} // verus!
