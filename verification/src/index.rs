//! Secondary indexes: derived, denormalized views over a table's records.
//!
//! Three kinds are provided. A [`UniqueIndex`] maps a key to at most one row
//! (last write wins on collision), a [`DiscreteIndex`] groups rows by a key,
//! and a [`BooleanIndex`] keeps the single set of rows satisfying a
//! predicate. All of them store only keys and row identifiers, never record
//! contents, and all mutations state exactly how the index view changes, so
//! the remove-before-mutate-then-add update protocol can be shown to keep
//! every index consistent (see the consistency lemmas at the end).

use vstd::prelude::*;

use crate::selection::Row;
use crate::selection::Selection;

verus! {

/// A key a secondary index can be built over. Keys are compared and copied
/// by their mathematical view, so an owned copy stored inside an index stays
/// interchangeable with the field it was derived from.
pub trait IndexKey: View + Sized {
    /// Whether two keys are the same key.
    fn key_eq(&self, other: &Self) -> (r: bool)
        ensures
            r == (self@ == other@),
    ;

    /// An owned copy of this key.
    fn key_dup(&self) -> (r: Self)
        ensures
            r@ == self@,
    ;
}

impl IndexKey for u32 {
    fn key_eq(&self, other: &Self) -> (r: bool) {
        *self == *other
    }

    fn key_dup(&self) -> (r: Self) {
        *self
    }
}

impl IndexKey for u64 {
    fn key_eq(&self, other: &Self) -> (r: bool) {
        *self == *other
    }

    fn key_dup(&self) -> (r: Self) {
        *self
    }
}

impl IndexKey for String {
    fn key_eq(&self, other: &Self) -> (r: bool) {
        *self == *other
    }

    fn key_dup(&self) -> (r: Self) {
        self.clone()
    }
}

// The association-list vocabulary below is internal: the index kinds
// expose only the finite maps it denotes.

/// Entry `i` of `s` carries the key whose view is `k`.
spec fn entry_with_key<K: View, A>(s: Seq<(K, A)>, k: <K as View>::V, i: int) -> bool {
    0 <= i < s.len() && s[i].0@ == k
}

/// Some entry of `s` carries the key whose view is `k`.
spec fn has_key<K: View, A>(s: Seq<(K, A)>, k: <K as View>::V) -> bool {
    exists|i: int| entry_with_key(s, k, i)
}

/// The position of the entry of `s` carrying `k` (unique when keys are
/// distinct).
spec fn key_index<K: View, A>(s: Seq<(K, A)>, k: <K as View>::V) -> int {
    choose|i: int| entry_with_key(s, k, i)
}

/// The finite map an association list denotes.
spec fn entry_map<K: View, A>(s: Seq<(K, A)>) -> Map<<K as View>::V, A> {
    Map::new(|k: <K as View>::V| has_key(s, k), |k: <K as View>::V| s[key_index(s, k)].1)
}

/// No two entries of `s` carry the same key.
spec fn keys_distinct<K: View, A>(s: Seq<(K, A)>) -> bool {
    forall|i: int, j: int|
        0 <= i < j < s.len() ==> (#[trigger] s[i]).0@ != (#[trigger] s[j]).0@
}

proof fn lemma_entry_lookup<K: View, A>(s: Seq<(K, A)>, i: int)
    requires
        keys_distinct(s),
        0 <= i < s.len(),
    ensures
        entry_map(s).dom().contains(s[i].0@),
        entry_map(s)[s[i].0@] == s[i].1,
        key_index(s, s[i].0@) == i,
{
    let k = s[i].0@;
    assert(entry_with_key(s, k, i));
    let j = key_index(s, k);
    assert(entry_with_key(s, k, j));
    if i < j {
        assert(s[i].0@ != s[j].0@);
    } else if j < i {
        assert(s[j].0@ != s[i].0@);
    }
}

proof fn lemma_entry_absent<K: View, A>(s: Seq<(K, A)>, k: <K as View>::V)
    requires
        forall|i: int| 0 <= i < s.len() ==> (#[trigger] s[i]).0@ != k,
    ensures
        !entry_map(s).dom().contains(k),
{
}

proof fn lemma_entry_map_empty<K: View, A>()
    ensures
        entry_map(Seq::<(K, A)>::empty()) == Map::<<K as View>::V, A>::empty(),
{
    assert(entry_map(Seq::<(K, A)>::empty()) =~= Map::<<K as View>::V, A>::empty());
}

proof fn lemma_entry_map_push<K: View, A>(s: Seq<(K, A)>, key: K, value: A)
    requires
        keys_distinct(s),
        forall|i: int| 0 <= i < s.len() ==> (#[trigger] s[i]).0@ != key@,
    ensures
        keys_distinct(s.push((key, value))),
        entry_map(s.push((key, value))) == entry_map(s).insert(key@, value),
{
    let s2 = s.push((key, value));
    let n = s.len() as int;
    assert forall|i: int, j: int|
        0 <= i < j < s2.len() implies (#[trigger] s2[i]).0@ != (#[trigger] s2[j]).0@ by {
        if j < n {
            assert(s2[i] == s[i] && s2[j] == s[j]);
        } else {
            assert(s2[j] == (key, value));
            assert(s2[i] == s[i]);
        }
    }
    assert forall|k: <K as View>::V| true implies {
        &&& has_key(s2, k) <==> entry_map(s).insert(key@, value).dom().contains(k)
        &&& has_key(s2, k) ==> s2[key_index(s2, k)].1 == entry_map(s).insert(key@, value)[k]
    } by {
        if k == key@ {
            assert(entry_with_key(s2, k, n));
            lemma_entry_lookup(s2, n);
        } else {
            if has_key(s, k) {
                let i = key_index(s, k);
                assert(entry_with_key(s, k, i));
                assert(entry_with_key(s2, k, i));
                lemma_entry_lookup(s, i);
                lemma_entry_lookup(s2, i);
            } else {
                if has_key(s2, k) {
                    let i = key_index(s2, k);
                    assert(entry_with_key(s2, k, i));
                    assert(i < n ==> entry_with_key(s, k, i));
                    assert(i == n ==> s2[i].0@ == key@);
                    assert(false);
                }
            }
        }
    }
    assert(entry_map(s2) =~= entry_map(s).insert(key@, value));
}

proof fn lemma_entry_map_remove<K: View, A>(s: Seq<(K, A)>, i: int)
    requires
        keys_distinct(s),
        0 <= i < s.len(),
    ensures
        keys_distinct(s.remove(i)),
        forall|j: int| 0 <= j < s.remove(i).len() ==> (#[trigger] s.remove(i)[j]).0@ != s[i].0@,
        entry_map(s.remove(i)) == entry_map(s).remove(s[i].0@),
{
    let s2 = s.remove(i);
    let k0 = s[i].0@;
    assert forall|j: int| 0 <= j < s2.len() implies (#[trigger] s2[j]).0@ != k0 by {
        if j < i {
            assert(s2[j] == s[j]);
        } else {
            assert(s2[j] == s[j + 1]);
        }
    }
    assert forall|p: int, q: int|
        0 <= p < q < s2.len() implies (#[trigger] s2[p]).0@ != (#[trigger] s2[q]).0@ by {
        let p0 = if p < i { p } else { p + 1 };
        let q0 = if q < i { q } else { q + 1 };
        assert(s2[p] == s[p0]);
        assert(s2[q] == s[q0]);
    }
    assert forall|k: <K as View>::V| true implies {
        &&& has_key(s2, k) <==> entry_map(s).remove(k0).dom().contains(k)
        &&& has_key(s2, k) ==> s2[key_index(s2, k)].1 == entry_map(s).remove(k0)[k]
    } by {
        if k != k0 {
            if has_key(s, k) {
                let j = key_index(s, k);
                assert(entry_with_key(s, k, j));
                lemma_entry_lookup(s, j);
                let j2 = if j < i { j } else { j - 1 };
                assert(j != i);
                assert(s2[j2] == s[j]);
                assert(entry_with_key(s2, k, j2));
                lemma_entry_lookup(s2, j2);
            } else {
                if has_key(s2, k) {
                    let j = key_index(s2, k);
                    assert(entry_with_key(s2, k, j));
                    let j0 = if j < i { j } else { j + 1 };
                    assert(s2[j] == s[j0]);
                    assert(entry_with_key(s, k, j0));
                    assert(false);
                }
            }
        }
    }
    assert(entry_map(s2) =~= entry_map(s).remove(k0));
}

/// An association list holding at most one value per key view; the backing
/// store of the keyed index kinds.
struct KeyMap<K: IndexKey, A> {
    entries: Vec<(K, A)>,
}

impl<K: IndexKey, A> KeyMap<K, A> {
    spec fn to_map(&self) -> Map<<K as View>::V, A> {
        entry_map(self.entries@)
    }

    spec fn wf(&self) -> bool {
        keys_distinct(self.entries@)
    }

    fn new() -> (r: Self)
        ensures
            r.wf(),
            r.to_map() == Map::<<K as View>::V, A>::empty(),
    {
        proof {
            lemma_entry_map_empty::<K, A>();
        }
        KeyMap { entries: Vec::new() }
    }

    fn find(&self, key: &K) -> (r: Option<usize>)
        ensures
            match r {
                Some(i) => i < self.entries@.len() && self.entries@[i as int].0@ == key@,
                None => forall|i: int|
                    0 <= i < self.entries@.len() ==> (#[trigger] self.entries@[i]).0@ != key@,
            },
    {
        let mut i: usize = 0;
        while i < self.entries.len()
            invariant
                i <= self.entries@.len(),
                forall|m: int| 0 <= m < i ==> (#[trigger] self.entries@[m]).0@ != key@,
            decreases self.entries@.len() - i,
        {
            if self.entries[i].0.key_eq(key) {
                return Some(i);
            }
            i = i + 1;
        }
        None
    }

    fn get(&self, key: &K) -> (r: Option<&A>)
        requires
            self.wf(),
        ensures
            match r {
                Some(a) => self.to_map().dom().contains(key@) && *a == self.to_map()[key@],
                None => !self.to_map().dom().contains(key@),
            },
    {
        match self.find(key) {
            Some(i) => {
                proof {
                    lemma_entry_lookup(self.entries@, i as int);
                }
                Some(&self.entries[i].1)
            },
            None => {
                proof {
                    lemma_entry_absent(self.entries@, key@);
                }
                None
            },
        }
    }

    fn insert(&mut self, key: K, value: A)
        requires
            old(self).wf(),
        ensures
            final(self).wf(),
            final(self).to_map() == old(self).to_map().insert(key@, value),
    {
        let ghost s0 = self.entries@;
        match self.find(&key) {
            Some(i) => {
                proof {
                    lemma_entry_lookup(s0, i as int);
                    lemma_entry_map_remove(s0, i as int);
                }
                let _stale = self.entries.remove(i);
                proof {
                    lemma_entry_map_push(self.entries@, key, value);
                    assert(entry_map(s0).remove(key@).insert(key@, value) =~= entry_map(
                        s0,
                    ).insert(key@, value));
                }
                self.entries.push((key, value));
            },
            None => {
                proof {
                    lemma_entry_map_push(s0, key, value);
                }
                self.entries.push((key, value));
            },
        }
    }

    fn take(&mut self, key: &K) -> (r: Option<A>)
        requires
            old(self).wf(),
        ensures
            final(self).wf(),
            match r {
                Some(a) => old(self).to_map().dom().contains(key@) && a == old(self).to_map()[key@]
                    && final(self).to_map() == old(self).to_map().remove(key@),
                None => !old(self).to_map().dom().contains(key@) && final(self).to_map() == old(
                    self,
                ).to_map(),
            },
    {
        match self.find(key) {
            Some(i) => {
                proof {
                    lemma_entry_lookup(self.entries@, i as int);
                    lemma_entry_map_remove(self.entries@, i as int);
                }
                let entry = self.entries.remove(i);
                Some(entry.1)
            },
            None => {
                proof {
                    lemma_entry_absent(self.entries@, key@);
                }
                None
            },
        }
    }
}

/// Maps each key to at most one row. Adding a second row under the same key
/// silently overwrites the mapping: last write wins, no conflict is raised.
pub struct UniqueIndex<V: IndexKey> {
    rows: KeyMap<V, Row>,
}

impl<V: IndexKey> UniqueIndex<V> {
    /// The key-to-row mapping this index currently holds.
    pub closed spec fn view(&self) -> Map<<V as View>::V, u32> {
        self.rows.to_map().map_values(|row: Row| row@)
    }

    pub closed spec fn wf(&self) -> bool {
        self.rows.wf()
    }

    pub fn new() -> (r: Self)
        ensures
            r.wf(),
            r@ == Map::<<V as View>::V, u32>::empty(),
    {
        let r = UniqueIndex { rows: KeyMap::new() };
        proof {
            assert(r@ =~= Map::<<V as View>::V, u32>::empty());
        }
        r
    }

    /// The row currently mapped to `value`, if any.
    pub fn get(&self, value: &V) -> (r: Option<Row>)
        requires
            self.wf(),
        ensures
            match r {
                Some(row) => self@.dom().contains(value@) && self@[value@] == row@,
                None => !self@.dom().contains(value@),
            },
    {
        match self.rows.get(value) {
            Some(row) => Some(*row),
            None => None,
        }
    }

    /// Maps `key` to `row`, overwriting any prior mapping for that key.
    pub fn add(&mut self, row: Row, key: V)
        requires
            old(self).wf(),
        ensures
            final(self).wf(),
            final(self)@ == old(self)@.insert(key@, row@),
    {
        let ghost m0 = self.rows.to_map();
        self.rows.insert(key, row);
        proof {
            assert(m0.insert(key@, row).map_values(|r: Row| r@) =~= m0.map_values(
                |r: Row| r@,
            ).insert(key@, row@));
        }
    }

    /// Deletes the mapping for `key`, if present. A stale call for a key that
    /// no longer maps to the expected row is accepted silently.
    pub fn remove(&mut self, key: &V)
        requires
            old(self).wf(),
        ensures
            final(self).wf(),
            final(self)@ == old(self)@.remove(key@),
    {
        let ghost m0 = self.rows.to_map();
        let _stale = self.rows.take(key);
        proof {
            assert(self.rows.to_map().map_values(|r: Row| r@) =~= m0.map_values(
                |r: Row| r@,
            ).remove(key@));
        }
    }
}

/// The set of rows grouped under `key`; a key never added groups no rows.
pub open spec fn group_rows<KV>(m: Map<KV, Set<u32>>, key: KV) -> Set<u32> {
    if m.dom().contains(key) {
        m[key]
    } else {
        Set::empty()
    }
}

/// A grouped-index view after `row` is added under `key`.
pub open spec fn group_add<KV>(m: Map<KV, Set<u32>>, key: KV, row: u32) -> Map<KV, Set<u32>> {
    m.insert(key, group_rows(m, key).insert(row))
}

/// A grouped-index view after `row` is removed from under `key`; a group that
/// becomes empty is kept, which `group_rows` treats the same as an absent one.
pub open spec fn group_remove<KV>(m: Map<KV, Set<u32>>, key: KV, row: u32) -> Map<KV, Set<u32>> {
    if m.dom().contains(key) {
        m.insert(key, m[key].remove(row))
    } else {
        m
    }
}

/// Groups rows by a key: maps each key to the set of rows whose record
/// currently carries it. The stored key is an owned copy, deliberately
/// decoupled from the record field it was derived from, so mutating a record
/// can never silently corrupt a stored key.
pub struct DiscreteIndex<V: IndexKey> {
    selections: KeyMap<V, Selection>,
    empty: Selection,
}

impl<V: IndexKey> DiscreteIndex<V> {
    /// The key-to-row-group mapping this index currently holds.
    pub closed spec fn view(&self) -> Map<<V as View>::V, Set<u32>> {
        self.selections.to_map().map_values(|s: Selection| s@)
    }

    pub closed spec fn wf(&self) -> bool {
        &&& self.selections.wf()
        &&& self.empty@ == Set::<u32>::empty()
        &&& forall|k: <V as View>::V| self@.dom().contains(k) ==> (#[trigger] self@[k]).finite()
    }

    pub fn new() -> (r: Self)
        ensures
            r.wf(),
            r@ == Map::<<V as View>::V, Set<u32>>::empty(),
    {
        let r = DiscreteIndex { selections: KeyMap::new(), empty: Selection::empty() };
        proof {
            assert(r@ =~= Map::<<V as View>::V, Set<u32>>::empty());
        }
        r
    }

    /// The group of rows currently carrying `value`; the empty selection when
    /// the key was never added. Absent and empty groups are indistinguishable.
    pub fn get(&self, value: &V) -> (r: &Selection)
        requires
            self.wf(),
        ensures
            r@ == group_rows(self@, value@),
            r.wf(),
    {
        match self.selections.get(value) {
            Some(s) => s,
            None => &self.empty,
        }
    }

    /// Adds `row` to the group of `key`, creating the group if needed.
    pub fn add(&mut self, row: Row, key: &V)
        requires
            old(self).wf(),
        ensures
            final(self).wf(),
            final(self)@ == group_add(old(self)@, key@, row@),
    {
        let ghost m0 = self.selections.to_map();
        match self.selections.take(key) {
            Some(mut s) => {
                proof {
                    assert(old(self)@.dom().contains(key@));
                    assert(old(self)@[key@] == s@);
                    assert(old(self)@[key@].finite());
                }
                s.add(row);
                self.selections.insert(key.key_dup(), s);
                proof {
                    assert(self.selections.to_map() =~= m0.insert(key@, s));
                }
            },
            None => {
                self.selections.insert(key.key_dup(), Selection::of_row(row));
            },
        }
        proof {
            assert(self@ =~= group_add(old(self)@, key@, row@));
        }
    }

    /// Removes `row` from the group of `key`, if that group exists; a group
    /// that becomes empty is kept.
    pub fn remove(&mut self, row: Row, key: &V)
        requires
            old(self).wf(),
        ensures
            final(self).wf(),
            final(self)@ == group_remove(old(self)@, key@, row@),
    {
        let ghost m0 = self.selections.to_map();
        match self.selections.take(key) {
            Some(mut s) => {
                proof {
                    assert(old(self)@.dom().contains(key@));
                    assert(old(self)@[key@] == s@);
                    assert(old(self)@[key@].finite());
                }
                s.remove(row);
                self.selections.insert(key.key_dup(), s);
                proof {
                    assert(self.selections.to_map() =~= m0.insert(key@, s));
                }
            },
            None => {},
        }
        proof {
            assert(self@ =~= group_remove(old(self)@, key@, row@));
        }
    }
}

/// The predicate-index view after a row whose record satisfies the predicate
/// (or not, per `satisfied`) is added.
pub open spec fn predicate_add(s: Set<u32>, row: u32, satisfied: bool) -> Set<u32> {
    if satisfied {
        s.insert(row)
    } else {
        s
    }
}

/// Keeps the single set of rows whose record currently satisfies a
/// predicate. The caller evaluates the predicate and hands in its verdict.
pub struct BooleanIndex {
    selection: Selection,
}

impl BooleanIndex {
    /// The set of rows this index currently holds.
    pub closed spec fn view(&self) -> Set<u32> {
        self.selection@
    }

    pub open spec fn wf(&self) -> bool {
        self@.finite()
    }

    pub fn new() -> (r: Self)
        ensures
            r.wf(),
            r@ == Set::<u32>::empty(),
    {
        BooleanIndex { selection: Selection::empty() }
    }

    /// The rows currently satisfying the predicate.
    pub fn get(&self) -> (r: &Selection)
        requires
            self.wf(),
        ensures
            r@ == self@,
            r.wf(),
    {
        &self.selection
    }

    /// Records `row` as satisfying the predicate when `satisfied` holds;
    /// otherwise leaves the index unchanged.
    pub fn add(&mut self, row: Row, satisfied: bool)
        requires
            old(self).wf(),
        ensures
            final(self).wf(),
            final(self)@ == predicate_add(old(self)@, row@, satisfied),
    {
        if satisfied {
            self.selection.add(row);
        }
    }

    /// Unconditionally removes `row`. Cheaper than re-evaluating a now-stale
    /// predicate, and correct because removal is idempotent.
    pub fn remove(&mut self, row: Row)
        requires
            old(self).wf(),
        ensures
            final(self).wf(),
            final(self)@ == old(self)@.remove(row@),
    {
        self.selection.remove(row);
    }
}

/// Index consistency after the update protocol on a unique index: removing
/// the mapping for a row's old key and then adding the row under its new key
/// leaves the new key mapped to the row, and the old key (when different)
/// mapped to nothing. `Table::update` guarantees exactly this
/// remove-then-add composition to the composite index, so a composite whose
/// model applies it to a unique member's view gets this consistency for
/// every update.
pub proof fn lemma_unique_update_consistency<KV>(m: Map<KV, u32>, old_key: KV, new_key: KV, row: u32)
    ensures
        m.remove(old_key).insert(new_key, row).dom().contains(new_key),
        m.remove(old_key).insert(new_key, row)[new_key] == row,
        old_key != new_key ==> !m.remove(old_key).insert(new_key, row).dom().contains(old_key),
{
}

/// Index consistency after the update protocol on a grouped index: removing
/// the row from its old key's group and then adding it under its new key
/// leaves the row grouped under the new key and not under the old one (when
/// the keys differ). As with the unique kind, `Table::update` supplies
/// exactly this composition.
pub proof fn lemma_discrete_update_consistency<KV>(
    m: Map<KV, Set<u32>>,
    old_key: KV,
    new_key: KV,
    row: u32,
)
    ensures
        group_rows(group_add(group_remove(m, old_key, row), new_key, row), new_key).contains(row),
        old_key != new_key ==> !group_rows(
            group_add(group_remove(m, old_key, row), new_key, row),
            old_key,
        ).contains(row),
{
}

/// Index consistency after the update protocol on a predicate index:
/// removing a row and re-adding it with the predicate's verdict on its new
/// record leaves the row in the index exactly when the verdict holds.
pub proof fn lemma_predicate_update_consistency(s: Set<u32>, row: u32, satisfied: bool)
    ensures
        predicate_add(s.remove(row), row, satisfied).contains(row) == satisfied,
{
}

/// Toggling a predicate-relevant field away and back — two runs of the update
/// protocol, the second restoring the predicate's original verdict — leaves a
/// predicate index exactly as it started.
pub proof fn lemma_predicate_toggle_idempotent(s: Set<u32>, row: u32, away: bool, back: bool)
    requires
        s.contains(row) == back,
    ensures
        predicate_add(predicate_add(s.remove(row), row, away).remove(row), row, back) == s,
{
    assert(predicate_add(predicate_add(s.remove(row), row, away).remove(row), row, back) =~= s);
}

} // verus!
