//! The verified store: a map from type identifiers to erased holders, with
//! at most one entry per identifier.
//!
//! [`TypeMap`] keeps its entries in a vector whose identifiers are pairwise
//! distinct; its contracts describe the entry set as a mathematical map from
//! identifier to holder. The identifier-addressed operations (`has_slot`,
//! `slot`, `slot_mut`, `put_slot`, `take_slot`, `clear`) carry exact
//! contracts over that map and are verified for every identifier and holder
//! value. The type-addressed operations of the original surface (`insert`,
//! `get`, `get_mut`, `contains`, `remove`) obtain the identifier and the
//! holder from the trusted calls in [`crate::erased`] and state what holds
//! of the entry set whatever those calls return.

use vstd::prelude::*;

use crate::erased::ErasedBox;
use crate::erased::erase;
use crate::erased::key_of;
use crate::erased::recover_mut;
use crate::erased::recover_owned;
use crate::erased::recover_ref;
use crate::erased::same_key;

verus! {

/// One entry of the store: a type identifier and the erased holder of the
/// single value filed under it.
struct Entry {
    key: core::any::TypeId,
    val: ErasedBox,
}

/// No two entries of the sequence carry the same identifier.
spec fn distinct_keys(s: Seq<Entry>) -> bool {
    forall|i: int, j: int| 0 <= i < j < s.len() ==> s[i].key != s[j].key
}

/// The mathematical map that a sequence of entries denotes; on duplicate
/// identifiers the later entry wins.
spec fn seq_to_map(s: Seq<Entry>) -> Map<core::any::TypeId, ErasedBox>
    decreases s.len(),
{
    if s.len() == 0 {
        Map::empty()
    } else {
        seq_to_map(s.drop_last()).insert(s.last().key, s.last().val)
    }
}

/// An identifier is in the denoted map exactly when some entry carries it.
proof fn lemma_contains(s: Seq<Entry>, k: core::any::TypeId)
    ensures
        seq_to_map(s).contains_key(k) <==> (exists|i: int|
            0 <= i < s.len() && s[i].key == k),
    decreases s.len(),
{
    if s.len() > 0 {
        lemma_contains(s.drop_last(), k);
        if s.last().key == k {
            assert(s[s.len() - 1].key == k);
        } else {
            if exists|i: int| 0 <= i < s.len() && s[i].key == k {
                let i = choose|i: int| 0 <= i < s.len() && s[i].key == k;
                assert(s.drop_last()[i] == s[i]);
            }
            if exists|i: int| 0 <= i < s.drop_last().len() && s.drop_last()[i].key == k {
                let i = choose|i: int| 0 <= i < s.drop_last().len() && s.drop_last()[i].key == k;
                assert(s[i] == s.drop_last()[i]);
            }
        }
    }
}

/// Distinctness of identifiers carries over to the sequence without its
/// last entry.
proof fn lemma_distinct_drop(s: Seq<Entry>)
    requires
        distinct_keys(s),
        s.len() > 0,
    ensures
        distinct_keys(s.drop_last()),
{
    assert forall|p: int, q: int|
        0 <= p < q < s.drop_last().len() implies s.drop_last()[p].key
        != s.drop_last()[q].key by {
        assert(s.drop_last()[p] == s[p]);
        assert(s.drop_last()[q] == s[q]);
    }
}

/// When identifiers are distinct, the denoted map carries each entry's
/// holder under that entry's identifier.
proof fn lemma_value_at(s: Seq<Entry>, i: int)
    requires
        distinct_keys(s),
        0 <= i < s.len(),
    ensures
        seq_to_map(s).contains_key(s[i].key),
        seq_to_map(s)[s[i].key] == s[i].val,
    decreases s.len(),
{
    if i == s.len() - 1 {
    } else {
        lemma_distinct_drop(s);
        lemma_value_at(s.drop_last(), i);
        assert(s.drop_last()[i] == s[i]);
        assert(s.last().key != s[i].key);
    }
}

/// Appending an entry denotes filing its holder under its identifier.
proof fn lemma_push(s: Seq<Entry>, e: Entry)
    ensures
        seq_to_map(s.push(e)) == seq_to_map(s).insert(e.key, e.val),
{
    assert(s.push(e).drop_last() =~= s);
    assert(s.push(e).last() == e);
}

/// Removing the entry at a position denotes removing its identifier from
/// the map, when identifiers are distinct.
proof fn lemma_remove_at(s: Seq<Entry>, i: int)
    requires
        distinct_keys(s),
        0 <= i < s.len(),
    ensures
        distinct_keys(s.remove(i)),
        seq_to_map(s.remove(i)) == seq_to_map(s).remove(s[i].key),
        forall|j: int| 0 <= j < s.remove(i).len() ==> s.remove(i)[j].key != s[i].key,
    decreases s.len(),
{
    assert forall|p: int, q: int|
        0 <= p < q < s.remove(i).len() implies s.remove(i)[p].key != s.remove(i)[q].key by {
        assert(s.remove(i)[p] == (if p < i { s[p] } else { s[p + 1] }));
        assert(s.remove(i)[q] == (if q < i { s[q] } else { s[q + 1] }));
    }
    assert forall|j: int| 0 <= j < s.remove(i).len() implies s.remove(i)[j].key != s[i].key by {
        assert(s.remove(i)[j] == (if j < i { s[j] } else { s[j + 1] }));
    }
    if i == s.len() - 1 {
        lemma_distinct_drop(s);
        lemma_contains(s.drop_last(), s[i].key);
        assert(s.remove(i) =~= s.drop_last());
        assert(!seq_to_map(s.drop_last()).contains_key(s[i].key));
        assert(seq_to_map(s).remove(s[i].key) =~= seq_to_map(s.drop_last()));
    } else {
        let dl = s.drop_last();
        lemma_distinct_drop(s);
        lemma_remove_at(dl, i);
        assert(s.remove(i).drop_last() =~= dl.remove(i));
        assert(s.remove(i).last() == s.last());
        assert(dl[i] == s[i]);
        assert(s[i].key != s.last().key);
        assert(seq_to_map(dl).remove(s[i].key).insert(s.last().key, s.last().val)
            =~= seq_to_map(dl).insert(s.last().key, s.last().val).remove(s[i].key));
    }
}

/// Replacing one entry's holder, the identifier kept, denotes filing the
/// new holder under that identifier.
proof fn lemma_update_at(s: Seq<Entry>, s2: Seq<Entry>, i: int)
    requires
        distinct_keys(s),
        0 <= i < s.len(),
        s2.len() == s.len(),
        forall|j: int| 0 <= j < s.len() && j != i ==> s2[j] == s[j],
        s2[i].key == s[i].key,
    ensures
        distinct_keys(s2),
        seq_to_map(s2) == seq_to_map(s).insert(s[i].key, s2[i].val),
    decreases s.len(),
{
    assert forall|p: int, q: int|
        0 <= p < q < s2.len() implies s2[p].key != s2[q].key by {
        assert(s2[p].key == s[p].key && s2[q].key == s[q].key);
    }
    if i == s.len() - 1 {
        assert(s2.drop_last() =~= s.drop_last());
        assert(seq_to_map(s).insert(s[i].key, s2[i].val) =~= seq_to_map(s.drop_last()).insert(
            s[i].key,
            s2[i].val,
        ));
    } else {
        lemma_distinct_drop(s);
        assert(s2.drop_last()[i] == s2[i]);
        assert forall|j: int|
            0 <= j < s.drop_last().len() && j != i implies s2.drop_last()[j]
            == s.drop_last()[j] by {
            assert(s2.drop_last()[j] == s2[j] && s.drop_last()[j] == s[j]);
        }
        lemma_update_at(s.drop_last(), s2.drop_last(), i);
        assert(s2.last() == s.last());
        assert(s[i].key != s.last().key);
        assert(seq_to_map(s.drop_last()).insert(s[i].key, s2[i].val).insert(
            s.last().key,
            s.last().val,
        ) =~= seq_to_map(s.drop_last()).insert(s.last().key, s.last().val).insert(
            s[i].key,
            s2[i].val,
        ));
    }
}

/// The update lemma, quantified over every sequence that differs from `s`
/// in one holder only: stated so before a holder is borrowed for writing,
/// it applies to whatever sequence the writes leave behind.
proof fn lemma_update_val(s: Seq<Entry>, i: int)
    requires
        distinct_keys(s),
        0 <= i < s.len(),
    ensures
        forall|s2: Seq<Entry>|
            (s2.len() == s.len() && (forall|j: int| 0 <= j < s.len() && j != i ==> s2[j] == s[j])
                && s2[i].key == s[i].key) ==> distinct_keys(s2) && #[trigger] seq_to_map(s2)
                == seq_to_map(s).insert(s[i].key, s2[i].val),
{
    assert forall|s2: Seq<Entry>|
        (s2.len() == s.len() && (forall|j: int| 0 <= j < s.len() && j != i ==> s2[j] == s[j])
            && s2[i].key == s[i].key) implies distinct_keys(s2) && #[trigger] seq_to_map(s2)
        == seq_to_map(s).insert(s[i].key, s2[i].val) by {
        lemma_update_at(s, s2, i);
    }
}

/// A store of at most one value per static type, keyed by type identity.
pub struct TypeMap {
    entries: Vec<Entry>,
}

impl TypeMap {
    /// The entry set: which type identifiers are occupied, and by which
    /// erased holder.
    pub closed spec fn as_map(self) -> Map<core::any::TypeId, ErasedBox> {
        seq_to_map(self.entries@)
    }

    /// Well-formedness: no identifier is filed twice.
    pub closed spec fn wf(self) -> bool {
        distinct_keys(self.entries@)
    }

    /// Create a new, empty store.
    pub fn new() -> (r: TypeMap)
        ensures
            r.wf(),
            r.as_map() == Map::<core::any::TypeId, ErasedBox>::empty(),
    {
        TypeMap { entries: Vec::new() }
    }

    /// The position of the entry filed under `k`, if any.
    fn find(&self, k: &core::any::TypeId) -> (r: Option<usize>)
        ensures
            match r {
                Some(i) => 0 <= (i as int) < self.entries@.len() && self.entries@[i as int].key
                    == *k,
                None => forall|j: int| 0 <= j < self.entries@.len() ==> self.entries@[j].key != *k,
            },
    {
        let n = self.entries.len();
        let mut i: usize = 0;
        while i < n
            invariant
                n == self.entries@.len(),
                i <= n,
                forall|j: int| 0 <= j < i ==> self.entries@[j].key != *k,
            decreases n - i,
        {
            if same_key(&self.entries[i].key, k) {
                return Some(i);
            }
            i += 1;
        }
        None
    }

    /// Whether an entry is filed under the identifier `k`.
    pub fn has_slot(&self, k: &core::any::TypeId) -> (r: bool)
        ensures
            r == self.as_map().contains_key(*k),
    {
        let r = self.find(k);
        proof {
            lemma_contains(self.entries@, *k);
        }
        r.is_some()
    }

    /// A view of the holder filed under the identifier `k`, if any.
    pub fn slot(&self, k: &core::any::TypeId) -> (r: Option<&ErasedBox>)
        requires
            self.wf(),
        ensures
            match r {
                Some(b) => self.as_map().contains_key(*k) && *b == self.as_map()[*k],
                None => !self.as_map().contains_key(*k),
            },
    {
        match self.find(k) {
            Some(i) => {
                proof {
                    lemma_value_at(self.entries@, i as int);
                }
                Some(&self.entries[i].val)
            }
            None => {
                proof {
                    lemma_contains(self.entries@, *k);
                }
                None
            }
        }
    }

    /// Files the holder `b` under the identifier `k`, replacing whatever
    /// was filed there.
    pub fn put_slot(&mut self, k: core::any::TypeId, b: ErasedBox)
        requires
            old(self).wf(),
        ensures
            final(self).wf(),
            final(self).as_map() == old(self).as_map().insert(k, b),
    {
        let ghost m0 = self.as_map();
        match self.find(&k) {
            Some(i) => {
                proof {
                    lemma_remove_at(self.entries@, i as int);
                }
                self.entries.remove(i);
                proof {
                    assert(seq_to_map(self.entries@) == m0.remove(k));
                }
            }
            None => {},
        }
        let ghost s1 = self.entries@;
        proof {
            assert(forall|j: int| 0 <= j < s1.len() ==> s1[j].key != k);
        }
        self.entries.push(Entry { key: k, val: b });
        proof {
            lemma_push(s1, Entry { key: k, val: b });
            assert(seq_to_map(self.entries@) =~= m0.insert(k, b));
            assert forall|p: int, q: int|
                0 <= p < q < self.entries@.len() implies self.entries@[p].key
                != self.entries@[q].key by {
                if q < self.entries@.len() - 1 {
                    assert(self.entries@[p] == s1[p] && self.entries@[q] == s1[q]);
                } else {
                    assert(self.entries@[p] == s1[p]);
                }
            }
        }
    }

    /// Detaches the holder filed under the identifier `k`, if any, and
    /// returns it.
    pub fn take_slot(&mut self, k: &core::any::TypeId) -> (r: Option<ErasedBox>)
        requires
            old(self).wf(),
        ensures
            final(self).wf(),
            final(self).as_map() == old(self).as_map().remove(*k),
            r == (if old(self).as_map().contains_key(*k) {
                Some(old(self).as_map()[*k])
            } else {
                None::<ErasedBox>
            }),
    {
        match self.find(k) {
            Some(i) => {
                proof {
                    lemma_value_at(self.entries@, i as int);
                    lemma_remove_at(self.entries@, i as int);
                }
                let e = self.entries.remove(i);
                Some(e.val)
            }
            None => {
                proof {
                    lemma_contains(self.entries@, *k);
                    assert(self.as_map().remove(*k) =~= self.as_map());
                }
                None
            }
        }
    }

    /// Exclusive access to the holder filed under the identifier `k`; what
    /// is written through the reference is what `k` holds afterwards.
    pub fn slot_mut(&mut self, k: &core::any::TypeId) -> (r: &mut ErasedBox)
        requires
            old(self).wf(),
            old(self).as_map().contains_key(*k),
        ensures
            *r == old(self).as_map()[*k],
            final(self).wf(),
            final(self).as_map() == old(self).as_map().insert(*k, *final(r)),
    {
        let idx = self.find(k);
        match idx {
            Some(i) => {
                proof {
                    lemma_value_at(self.entries@, i as int);
                    lemma_update_val(self.entries@, i as int);
                }
                &mut self.entries[i].val
            }
            None => {
                proof {
                    lemma_contains(self.entries@, *k);
                }
                vstd::pervasive::unreached()
            }
        }
    }

    /// Detaches and discards every entry of every type.
    pub fn clear(&mut self)
        ensures
            final(self).wf(),
            final(self).as_map() == Map::<core::any::TypeId, ErasedBox>::empty(),
    {
        self.entries.clear();
    }

    /// Files `val` under the identity of its type `T`, replacing any value
    /// of type `T` filed before: afterwards the entry set is the old one
    /// with one identifier bound to one fresh holder.
    pub fn insert<T: 'static>(&mut self, val: T)
        requires
            old(self).wf(),
        ensures
            final(self).wf(),
            exists|k: core::any::TypeId, b: ErasedBox|
                final(self).as_map() == old(self).as_map().insert(k, b),
    {
        let ghost m0 = self.as_map();
        let k = key_of::<T>();
        let b = erase::<T>(val);
        let ghost gb = b;
        self.put_slot(k, b);
        proof {
            assert(self.as_map() == m0.insert(k, gb));
        }
    }

    /// A read-only view of the stored `T`, if one is present under `T`'s
    /// identity and recovers at `T`.
    pub fn get<T: 'static>(&self) -> (r: Option<&T>)
        requires
            self.wf(),
        ensures
            r is Some ==> exists|k: core::any::TypeId| self.as_map().contains_key(k),
    {
        let k = key_of::<T>();
        match self.slot(&k) {
            Some(b) => recover_ref::<T>(b),
            None => None,
        }
    }

    /// An exclusive view of the stored `T`, if one is present under `T`'s
    /// identity: a miss leaves the entry set unchanged, and a hit rebinds
    /// exactly one occupied identifier, so the set of occupied identifiers
    /// never changes.
    pub fn get_mut<T: 'static>(&mut self) -> (r: Option<&mut T>)
        requires
            old(self).wf(),
        ensures
            final(self).wf(),
            final(self).as_map().dom() == old(self).as_map().dom(),
            r is None ==> final(self).as_map() == old(self).as_map(),
            r is Some ==> exists|k: core::any::TypeId|
                old(self).as_map().contains_key(k) && final(self).as_map()
                    == old(self).as_map().insert(k, final(self).as_map()[k]),
    {
        let ghost m0 = self.as_map();
        let k = key_of::<T>();
        if !self.has_slot(&k) {
            return None;
        }
        proof {
            assert(m0.insert(k, m0[k]) =~= m0);
            assert forall|v: ErasedBox| (#[trigger] m0.insert(k, v)).dom() == m0.dom() by {
                assert(m0.insert(k, v).dom() =~= m0.dom());
            }
        }
        let b = self.slot_mut(&k);
        match recover_mut::<T>(b) {
            Some(x) => Some(x),
            None => None,
        }
    }

    /// Whether a value is filed under the identity of the type `T`: the
    /// answer is what the entry set holds at `T`'s identifier, so on a
    /// store with no entries it is `false` for every type.
    pub fn contains<T: 'static>(&self) -> (r: bool)
        ensures
            exists|k: core::any::TypeId| r == self.as_map().contains_key(k),
    {
        let k = key_of::<T>();
        self.has_slot(&k)
    }

    /// Detaches the value filed under `T`'s identity, if any, and returns
    /// it: afterwards one identifier is unoccupied, and a value comes back
    /// only if that identifier was occupied before.
    pub fn remove<T: 'static>(&mut self) -> (r: Option<T>)
        requires
            old(self).wf(),
        ensures
            final(self).wf(),
            exists|k: core::any::TypeId|
                final(self).as_map() == old(self).as_map().remove(k) && (r is Some ==> old(
                    self,
                ).as_map().contains_key(k)),
    {
        let ghost m0 = self.as_map();
        let k = key_of::<T>();
        let taken = self.take_slot(&k);
        proof {
            assert(self.as_map() == m0.remove(k));
        }
        match taken {
            Some(b) => recover_owned::<T>(b),
            None => None,
        }
    }
}

impl Default for TypeMap {
    /// Create a new, empty store.
    fn default() -> (r: TypeMap)
        ensures
            r.wf(),
            r.as_map() == Map::<core::any::TypeId, ErasedBox>::empty(),
    {
        TypeMap::new()
    }
}

} // verus!
