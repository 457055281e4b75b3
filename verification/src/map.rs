//! The client-facing table: a typed engine bound to one capability set, and
//! the reference-typed map facade built on top of it.

use vstd::prelude::*;
use crate::binding::EntrySpec;
use crate::inner::{capacity_overflows, grow_target, spec_capacity, InsertSlot, RawTableInner, TryReserveError};
use crate::layout::{EntryLayout, TableLayout};

verus! {

/// The keys of `other` that a forward scan has absorbed once it has passed
/// every slot below `curr`.
spec fn absorbed_keys<K, V, E: EntrySpec<K, V>>(other: RawTable2<K, V, E>, curr: int) -> Set<K> {
    Set::new(|k: K| other@.dom().contains(k) && other.inner.index_for(k) < curr)
}

/// A hash table over native entries of type `(K, V)`, driven by the
/// capability binding `E` for hashing, equality and assignment.
#[verifier::reject_recursive_types(K)]
pub struct RawTable2<K, V, E: EntrySpec<K, V>> {
    layout: EntryLayout,
    spec: E,
    inner: RawTableInner<K, V>,
}

impl<K, V, E: EntrySpec<K, V>> RawTable2<K, V, E> {
    /// The key-value map this table holds.
    pub closed spec fn view(self) -> Map<K, V> {
        self.inner@
    }

    /// The table invariant: the engine is well formed under this binding.
    pub closed spec fn wf(self) -> bool {
        self.inner.wf(self.spec)
    }

    /// Number of slots.
    pub closed spec fn num_buckets(self) -> nat {
        self.inner.num_buckets()
    }

    /// Insertions into never-used slots still allowed before a growth.
    pub closed spec fn headroom(self) -> nat {
        self.inner.spec_growth_left()
    }

    /// The layout this table was built from.
    pub closed spec fn spec_layout(self) -> EntryLayout {
        self.layout
    }

    /// Builds a new table that can take `cap` entries before its first
    /// growth; `cap == 0` allocates nothing and forces a growth on the first
    /// insertion. Fails exactly when the slot count the load-factor policy
    /// asks for overflows the address space.
    pub fn new(cap: usize, layout: EntryLayout, spec: E) -> (r: Result<Self, TryReserveError>)
        ensures
            match r {
                Ok(t) => {
                    &&& t.wf()
                    &&& t@ == Map::<K, V>::empty()
                    &&& t.spec_layout() == layout
                    &&& (cap == 0 ==> t.num_buckets() == 0)
                    &&& (cap > 0 ==> t.num_buckets() > 0 && t.headroom() >= cap
                        && t.num_buckets() == crate::inner::spec_buckets_for(cap as nat)
                        && crate::probe::is_pow2(t.num_buckets()))
                    &&& t.headroom() == spec_capacity(t.num_buckets())
                },
                Err(err) => err == TryReserveError::CapacityOverflow && crate::inner::capacity_overflows(cap as nat),
            },
    {
        let table_layout = TableLayout::from(layout);
        match RawTableInner::fallible_with_capacity::<E>(table_layout, cap) {
            Ok(inner) => Ok(RawTable2 { layout, spec, inner }),
            Err(err) => Err(err),
        }
    }

    /// Looks up `key` and hands back the value stored for it.
    pub fn access(&self, key: &K) -> (r: Option<&V>)
        requires
            self.wf(),
        ensures
            match r {
                Some(v) => self@.contains_key(*key) && *v == self@[*key],
                None => !self@.contains_key(*key),
            },
    {
        match self.inner.find_inner(&self.spec, key) {
            Some(i) => {
                proof {
                    self.inner.lemma_wf_base(self.spec);
                }
                Some(self.inner.get_value(i))
            },
            None => None,
        }
    }

    /// Ensures room for `additional` further insertions: a request the
    /// remaining headroom already covers is a no-op that must succeed and
    /// changes nothing; otherwise the table grows, and fails — leaving the
    /// table unchanged — exactly when the grown capacity cannot be
    /// addressed.
    pub fn check_growth(&mut self, additional: usize) -> (r: Result<(), TryReserveError>)
        requires
            old(self).wf(),
        ensures
            match r {
                Ok(()) => {
                    &&& final(self).wf()
                    &&& final(self)@ == old(self)@
                    &&& final(self).headroom() >= additional
                    &&& final(self).spec_layout() == old(self).spec_layout()
                    &&& (additional > 0 ==> final(self).num_buckets() > 0)
                },
                Err(err) => {
                    &&& *final(self) == *old(self)
                    &&& err == TryReserveError::CapacityOverflow
                    &&& additional > old(self).headroom()
                    &&& (old(self)@.len() + additional > usize::MAX || capacity_overflows(
                        grow_target(old(self)@.len(), old(self).num_buckets(), additional as nat),
                    ))
                },
            },
            additional <= old(self).headroom() ==> r is Ok && *final(self) == *old(self),
    {
        proof {
            self.inner.lemma_wf_base(self.spec);
        }
        if additional > self.inner.growth_left() {
            match self.inner.reserve_rehash_inner(&self.spec, additional) {
                Ok(()) => Ok(()),
                Err(err) => Err(err),
            }
        } else {
            Ok(())
        }
    }

    /// Inserts `value` under `key`, overwriting any value the key already
    /// resolves to; grows first when no headroom is left, so success is owed
    /// whenever headroom remains or the grown capacity fits — and with
    /// headroom remaining, no new allocation happens: the bucket count stays.
    /// On failure the table is unchanged.
    pub fn assign(&mut self, key: &K, value: V) -> (r: Result<(), TryReserveError>)
        requires
            old(self).wf(),
        ensures
            match r {
                Ok(()) => {
                    &&& final(self).wf()
                    &&& final(self)@ == old(self)@.insert(*key, value)
                    &&& final(self).spec_layout() == old(self).spec_layout()
                    &&& (old(self)@.contains_key(*key) ==> final(self)@.len() == old(self)@.len())
                    &&& (!old(self)@.contains_key(*key) ==> final(self)@.len() == old(self)@.len()
                        + 1)
                    &&& (old(self).headroom() >= 1 ==> {
                        &&& final(self).num_buckets() == old(self).num_buckets()
                        &&& final(self).headroom() >= old(self).headroom() - 1
                        &&& (old(self)@.contains_key(*key) ==> final(self).headroom() == old(
                            self,
                        ).headroom())
                    })
                },
                Err(err) => {
                    &&& *final(self) == *old(self)
                    &&& err == TryReserveError::CapacityOverflow
                    &&& old(self).headroom() == 0
                    &&& (old(self)@.len() + 1 > usize::MAX || capacity_overflows(
                        grow_target(old(self)@.len(), old(self).num_buckets(), 1),
                    ))
                },
            },
    {
        proof {
            self.inner.lemma_wf_base(self.spec);
        }
        match self.check_growth(1) {
            Ok(()) => {},
            Err(err) => {
                return Err(err);
            },
        }
        match self.inner.find_or_find_insert_slot_inner(&self.spec, key) {
            Ok(i) => {
                self.inner.replace_value(&self.spec, i, value);
                proof {
                    assert(self.inner@ =~= old(self)@.insert(*key, value));
                    assert(self.inner@.dom() =~= old(self)@.dom());
                    self.inner.lemma_wf_base(self.spec);
                }
            },
            Err(slot) => {
                let key2 = self.spec.assign_key(key);
                self.inner.insert_at(&self.spec, slot.index, key2, value);
                proof {
                    self.inner.lemma_wf_base(self.spec);
                    assert(self.inner@.dom() =~= old(self)@.dom().insert(*key));
                    vstd::set::axiom_set_insert_len(old(self)@.dom(), *key);
                }
            },
        }
        Ok(())
    }

    /// Copies every live entry of `other` into this table, overwriting the
    /// value wherever a key is present in both. Room for all of `other` is
    /// secured up front, so the operation is atomic: it fails — leaving this
    /// table unchanged — exactly when that one growth cannot be addressed.
    pub fn extend(&mut self, other: &Self) -> (r: Result<(), TryReserveError>)
        requires
            old(self).wf(),
            other.wf(),
        ensures
            match r {
                Ok(()) => {
                    &&& final(self).wf()
                    &&& final(self)@ == old(self)@.union_prefer_right(other@)
                    &&& final(self).spec_layout() == old(self).spec_layout()
                },
                Err(err) => {
                    &&& *final(self) == *old(self)
                    &&& err == TryReserveError::CapacityOverflow
                    &&& other@.len() > old(self).headroom()
                    &&& (old(self)@.len() + other@.len() > usize::MAX || capacity_overflows(
                        grow_target(old(self)@.len(), old(self).num_buckets(), other@.len()),
                    ))
                },
            },
    {
        proof {
            other.inner.lemma_wf_base(other.spec);
        }
        match self.check_growth(other.inner.len()) {
            Ok(()) => {},
            Err(err) => {
                return Err(err);
            },
        }
        let ghost pre = *self;
        proof {
            assert forall|k: K| #[trigger] other@.contains_key(k) implies 0
                <= other.inner.index_for(k) < other.num_buckets() by {
                other.inner.lemma_key_slot(other.spec, k);
            }
            assert(absorbed_keys(*other, 0) =~= Set::<K>::empty());
        }
        let mb = other.inner.buckets();
        let mut curr: usize = 0;
        loop
            invariant
                self.wf(),
                other.wf(),
                self.spec_layout() == pre.spec_layout(),
                pre@ == old(self)@,
                pre.spec_layout() == old(self).spec_layout(),
                mb == other.num_buckets(),
                other@.dom().finite(),
                self.headroom() + absorbed_keys(*other, curr as int).len() >= other@.len(),
                forall|k: K|
                    #[trigger] other@.contains_key(k) ==> 0 <= other.inner.index_for(k)
                        < mb,
                forall|k: K| #[trigger] self@.contains_key(k) <==> (pre@.contains_key(k) || (
                other@.contains_key(k) && other.inner.index_for(k) < curr)),
                forall|k: K|
                    #[trigger] self@.contains_key(k) ==> self@[k] == (if other@.contains_key(k)
                        && other.inner.index_for(k) < curr {
                        other@[k]
                    } else {
                        pre@[k]
                    }),
            decreases mb - curr,
        {
            proof {
                other.inner.lemma_wf_base(other.spec);
            }
            let next = other.inner.next_full_after(curr);
            match next {
                Some(i) => {
                    proof {
                        other.inner.lemma_full_slot_key(other.spec, i as int);
                        assert forall|k: K|
                            other@.contains_key(k) && other.inner.index_for(k) < i + 1
                                implies other.inner.index_for(k) < curr || other.inner.index_for(k)
                                == i as int by {
                            other.inner.lemma_key_slot(other.spec, k);
                        }
                    }
                    let kr = other.inner.get_key(i);
                    let vr = other.inner.get_value(i);
                    let k2 = self.spec.assign_key(kr);
                    let v2 = self.spec.assign_value(vr);
                    let ghost before = *self;
                    proof {
                        // the up-front reservation still covers this entry
                        let d = absorbed_keys(*other, curr as int);
                        assert(!d.contains(k2));
                        assert(d.subset_of(other@.dom().remove(k2))) by {
                            assert forall|k: K| #[trigger] d.contains(k) implies other@.dom().remove(
                                k2,
                            ).contains(k) by {}
                        }
                        vstd::set_lib::lemma_len_subset(d, other@.dom().remove(k2));
                        vstd::set::axiom_set_remove_len(other@.dom(), k2);
                        assert(self.headroom() >= 1);
                    }
                    match self.assign(&k2, v2) {
                        Ok(()) => {},
                        Err(_) => {
                            proof {
                                assert(false);
                            }
                            return vstd::pervasive::unreached();
                        },
                    }
                    proof {
                        assert(k2 == other.inner.slot_key(i as int));
                        assert(other.inner.index_for(k2) == i as int);
                        let d = absorbed_keys(*other, curr as int);
                        assert(absorbed_keys(*other, i + 1) =~= d.insert(k2)) by {
                            assert forall|k: K| #[trigger] absorbed_keys(*other, i + 1).contains(
                                k,
                            ) implies d.insert(k2).contains(k) by {
                                if k != k2 {
                                    if other.inner.index_for(k) == i as int {
                                        other.inner.lemma_key_slot(other.spec, k);
                                        assert(false);
                                    }
                                }
                            }
                        }
                        vstd::set_lib::lemma_len_subset(d, other@.dom());
                        vstd::set::axiom_set_insert_len(d, k2);
                        assert forall|k: K| #[trigger] self@.contains_key(k) implies (
                        pre@.contains_key(k) || (other@.contains_key(k) && other.inner.index_for(k)
                            < i + 1)) by {
                            if k != k2 {
                                assert(before@.contains_key(k));
                            }
                        }
                        assert forall|k: K|
                            pre@.contains_key(k) || (other@.contains_key(k)
                                && other.inner.index_for(k) < i + 1) implies #[trigger] self@.contains_key(
                            k,
                        ) by {
                            if k != k2 {
                                if other@.contains_key(k) && other.inner.index_for(k) == i as int {
                                    other.inner.lemma_key_slot(other.spec, k);
                                    assert(false);
                                }
                                assert(before@.contains_key(k));
                            }
                        }
                        assert forall|k: K| #[trigger] self@.contains_key(k) implies self@[k] == (
                        if other@.contains_key(k) && other.inner.index_for(k) < i + 1 {
                            other@[k]
                        } else {
                            pre@[k]
                        }) by {
                            if k != k2 {
                                if other@.contains_key(k) && other.inner.index_for(k) == i as int {
                                    other.inner.lemma_key_slot(other.spec, k);
                                    assert(false);
                                }
                                assert(before@.contains_key(k));
                            }
                        }
                    }
                    if i == mb - 1 {
                        proof {
                            assert forall|k: K| #[trigger] other@.contains_key(k) implies other.inner.index_for(
                                k,
                            ) < i + 1 by {
                                other.inner.lemma_key_slot(other.spec, k);
                            }
                            assert(self@ =~= pre@.union_prefer_right(other@));
                        }
                        return Ok(());
                    }
                    curr = i + 1;
                },
                None => {
                    proof {
                        assert forall|k: K| #[trigger] other@.contains_key(k) implies other.inner.index_for(
                            k,
                        ) < curr by {
                            other.inner.lemma_key_slot(other.spec, k);
                        }
                        assert(self@ =~= pre@.union_prefer_right(other@));
                    }
                    return Ok(());
                },
            }
        }
    }

    /// Removes the entry stored for `key`; removing an absent key is a
    /// no-op.
    pub fn delete(&mut self, key: &K)
        requires
            old(self).wf(),
        ensures
            final(self).wf(),
            final(self)@ == old(self)@.remove(*key),
            final(self)@.len() == old(self)@.len() - (if old(self)@.contains_key(*key) {
                1int
            } else {
                0int
            }),
            final(self).spec_layout() == old(self).spec_layout(),
            final(self).num_buckets() == old(self).num_buckets(),
            final(self).headroom() == old(self).headroom(),
    {
        proof {
            self.inner.lemma_wf_base(self.spec);
        }
        let found = self.inner.find_inner(&self.spec, key);
        match found {
            Some(i) => {
                self.inner.erase(&self.spec, i);
                proof {
                    vstd::set::axiom_set_remove_len(old(self)@.dom(), *key);
                    assert(self.inner@ =~= old(self)@.remove(*key));
                    self.inner.lemma_wf_base(self.spec);
                }
            },
            None => {
                proof {
                    assert(self.inner@ =~= old(self)@.remove(*key));
                    assert(self.inner@.dom() =~= old(self)@.dom());
                }
            },
        }
    }

    /// Empties the table without shrinking it: the capacity and the
    /// allocation stay, the entry count and the headroom are reset.
    pub fn clear(&mut self)
        requires
            old(self).wf(),
        ensures
            final(self).wf(),
            final(self)@ == Map::<K, V>::empty(),
            final(self)@.len() == 0,
            final(self).num_buckets() == old(self).num_buckets(),
            final(self).headroom() == spec_capacity(final(self).num_buckets()),
            final(self).num_buckets() > 0 ==> final(self).headroom() >= 1,
            final(self).spec_layout() == old(self).spec_layout(),
    {
        proof {
            self.inner.lemma_wf_base(self.spec);
        }
        self.inner.clear_no_drop::<E>();
        proof {
            self.inner.lemma_wf_base(self.spec);
            if self.inner.num_buckets() > 0 {
                self.inner.lemma_buckets_capacity(self.spec);
            }
        }
    }

    /// Number of entries in the table.
    pub fn len(&self) -> (n: usize)
        requires
            self.wf(),
        ensures
            n as nat == self@.len(),
    {
        proof {
            self.inner.lemma_wf_base(self.spec);
        }
        self.inner.len()
    }

    /// Derives the map facade over this table, taking ownership of it; the
    /// facade hands the table back through `into_table`.
    pub fn as_map(self) -> (r: RawMap<K, V, E>)
        ensures
            r.table == self,
    {
        RawMap { table: self }
    }

    /// First FULL slot at or after `index`, with the entry stored there, or
    /// nothing when every later slot is vacant. Restartable forward
    /// iteration: mutating the table between steps invalidates the scan.
    pub fn next_entry(&self, index: usize) -> (r: Option<(usize, &K, &V)>)
        requires
            self.wf(),
        ensures
            match r {
                Some((i, k, v)) => {
                    &&& index <= i
                    &&& (i as int) < self.num_buckets()
                    &&& self@.contains_key(*k)
                    &&& self@[*k] == *v
                    &&& self.spec_key_at(i as int) == *k
                    &&& (forall|q: int| index <= q < i ==> !self.spec_slot_full(q))
                    &&& self.spec_slot_full(i as int)
                },
                None => forall|q: int|
                    index <= q < self.num_buckets() ==> !self.spec_slot_full(q),
            },
    {
        proof {
            self.inner.lemma_wf_base(self.spec);
        }
        match self.inner.next_full_after(index) {
            Some(i) => {
                proof {
                    self.inner.lemma_full_slot_key(self.spec, i as int);
                }
                Some((i, self.inner.get_key(i), self.inner.get_value(i)))
            },
            None => None,
        }
    }

    /// Slot `i` holds an entry.
    pub closed spec fn spec_slot_full(self, i: int) -> bool {
        self.inner.slot_full(i)
    }

    /// Key stored in slot `i`.
    pub closed spec fn spec_key_at(self, i: int) -> K {
        self.inner.slot_key(i)
    }

    /// Iteration visits exactly the live set: the FULL slots carry the
    /// model's keys bijectively — every FULL slot holds a present key, no two
    /// FULL slots hold the same key, and every present key sits in some FULL
    /// slot — so a full forward scan through `next_entry`, which steps from
    /// one FULL slot to the next, meets each key of the model exactly once
    /// and nothing else.
    pub proof fn lemma_full_slots_are_live_set(self)
        requires
            self.wf(),
        ensures
            self@.dom().finite(),
            forall|i: int|
                0 <= i < self.num_buckets() && #[trigger] self.spec_slot_full(i)
                    ==> self@.contains_key(self.spec_key_at(i)),
            forall|i: int, j: int|
                0 <= i < self.num_buckets() && 0 <= j < self.num_buckets()
                    && #[trigger] self.spec_slot_full(i) && #[trigger] self.spec_slot_full(j) && i
                    != j ==> self.spec_key_at(i) != self.spec_key_at(j),
            forall|k: K|
                #[trigger] self@.contains_key(k) ==> exists|i: int|
                    0 <= i < self.num_buckets() && #[trigger] self.spec_slot_full(i)
                        && self.spec_key_at(i) == k,
    {
        self.inner.lemma_wf_base(self.spec);
        assert forall|i: int|
            0 <= i < self.num_buckets() && #[trigger] self.spec_slot_full(i) implies self@.contains_key(
            self.spec_key_at(i),
        ) by {
            self.inner.lemma_full_slot_key(self.spec, i);
        }
        assert forall|i: int, j: int|
            0 <= i < self.num_buckets() && 0 <= j < self.num_buckets()
                && #[trigger] self.spec_slot_full(i) && #[trigger] self.spec_slot_full(j) && i
                != j implies self.spec_key_at(i) != self.spec_key_at(j) by {
            self.inner.lemma_full_slot_key(self.spec, i);
            self.inner.lemma_full_slot_key(self.spec, j);
        }
        assert forall|k: K| #[trigger] self@.contains_key(k) implies exists|i: int|
            0 <= i < self.num_buckets() && #[trigger] self.spec_slot_full(i) && self.spec_key_at(i)
                == k by {
            self.inner.lemma_key_slot(self.spec, k);
            let i = self.inner.index_for(k);
            assert(0 <= i < self.num_buckets() && self.spec_slot_full(i) && self.spec_key_at(i)
                == k);
        }
    }
}

/// A reference-typed `map<K, V>` facade over a bound table.
#[verifier::reject_recursive_types(K)]
pub struct RawMap<K, V, E: EntrySpec<K, V>> {
    /// The engine this facade drives.
    pub table: RawTable2<K, V, E>,
}

impl<K, V, E: EntrySpec<K, V>> RawMap<K, V, E> {
    /// The key-value map this facade holds.
    pub closed spec fn view(self) -> Map<K, V> {
        self.table@
    }

    /// The facade invariant.
    pub closed spec fn wf(self) -> bool {
        self.table.wf()
    }

    /// Number of slots of the underlying table.
    pub closed spec fn num_buckets(self) -> nat {
        self.table.num_buckets()
    }

    /// Insertions into never-used slots still allowed before a growth.
    pub closed spec fn headroom(self) -> nat {
        self.table.headroom()
    }

    /// Hands the table back.
    pub fn into_table(self) -> (r: RawTable2<K, V, E>)
        ensures
            r == self.table,
    {
        self.table
    }

    /// Reference to the value stored for `key`.
    pub fn get(&self, key: &K) -> (r: Option<&V>)
        requires
            self.wf(),
        ensures
            match r {
                Some(v) => self@.contains_key(*key) && *v == self@[*key],
                None => !self@.contains_key(*key),
            },
    {
        self.table.access(key)
    }

    /// Writes `{key, value}` into this map, overwriting any earlier value;
    /// success is owed whenever headroom remains or the grown capacity fits,
    /// and an insert covered by remaining headroom allocates nothing.
    pub fn insert(&mut self, key: &K, value: V) -> (r: Result<(), TryReserveError>)
        requires
            old(self).wf(),
        ensures
            match r {
                Ok(()) => {
                    &&& final(self).wf()
                    &&& final(self)@ == old(self)@.insert(*key, value)
                    &&& (old(self)@.contains_key(*key) ==> final(self)@.len() == old(self)@.len())
                    &&& (!old(self)@.contains_key(*key) ==> final(self)@.len() == old(self)@.len()
                        + 1)
                    &&& (old(self).headroom() >= 1 ==> {
                        &&& final(self).num_buckets() == old(self).num_buckets()
                        &&& final(self).headroom() >= old(self).headroom() - 1
                        &&& (old(self)@.contains_key(*key) ==> final(self).headroom() == old(
                            self,
                        ).headroom())
                    })
                },
                Err(err) => {
                    &&& *final(self) == *old(self)
                    &&& err == TryReserveError::CapacityOverflow
                    &&& old(self).headroom() == 0
                },
            },
    {
        self.table.assign(key, value)
    }

    /// Deletes the entry stored for `key`.
    pub fn delete(&mut self, key: &K)
        requires
            old(self).wf(),
        ensures
            final(self).wf(),
            final(self)@ == old(self)@.remove(*key),
            final(self)@.len() == old(self)@.len() - (if old(self)@.contains_key(*key) {
                1int
            } else {
                0int
            }),
            final(self).num_buckets() == old(self).num_buckets(),
            final(self).headroom() == old(self).headroom(),
    {
        self.table.delete(key)
    }

    /// Merges all entries of `other` into this map; the merge is atomic: on
    /// failure nothing was absorbed.
    pub fn extend(&mut self, other: &Self) -> (r: Result<(), TryReserveError>)
        requires
            old(self).wf(),
            other.wf(),
        ensures
            match r {
                Ok(()) => final(self).wf() && final(self)@ == old(self)@.union_prefer_right(
                    other@,
                ),
                Err(err) => {
                    &&& *final(self) == *old(self)
                    &&& err == TryReserveError::CapacityOverflow
                    &&& other@.len() > old(self).headroom()
                },
            },
    {
        self.table.extend(&other.table)
    }

    /// Clears all entries in this map: the count is reset, the capacity is
    /// kept, and the headroom returns to the full capacity, so re-inserting
    /// what was cleared allocates nothing.
    pub fn clear(&mut self)
        requires
            old(self).wf(),
        ensures
            final(self).wf(),
            final(self)@ == Map::<K, V>::empty(),
            final(self)@.len() == 0,
            final(self).num_buckets() == old(self).num_buckets(),
            final(self).headroom() == spec_capacity(final(self).num_buckets()),
            final(self).num_buckets() > 0 ==> final(self).headroom() >= 1,
    {
        self.table.clear()
    }

    /// Obtains the count of entries in this map.
    pub fn size(&self) -> (n: usize)
        requires
            self.wf(),
        ensures
            n as nat == self@.len(),
    {
        self.table.len()
    }
}

} // verus!
