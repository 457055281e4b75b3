//! Table-wide laws, stated over the mathematical map model that every public
//! contract speaks in.

use vstd::prelude::*;

verus! {

/// The model after inserting a sequence of pairs, in order, into `m0`.
pub open spec fn after_inserts<K, V>(m0: Map<K, V>, pairs: Seq<(K, V)>) -> Map<K, V>
    decreases pairs.len(),
{
    if pairs.len() == 0 {
        m0
    } else {
        after_inserts(m0, pairs.drop_last()).insert(pairs.last().0, pairs.last().1)
    }
}

/// Find-after-insert: after inserting any sequence of pairs with distinct
/// keys, each key resolves to the value it was inserted with. Insertion is
/// `assign`/`insert`, whose contract is `self@ == old(self)@.insert(k, v)`,
/// and lookup is `access`/`get`, whose contract returns `self@[k]`.
pub proof fn lemma_find_after_insert<K, V>(m0: Map<K, V>, pairs: Seq<(K, V)>, i: int)
    requires
        0 <= i < pairs.len(),
        forall|a: int, b: int| 0 <= a < b < pairs.len() ==> (#[trigger] pairs[a]).0 != (
        #[trigger] pairs[b]).0,
    ensures
        after_inserts(m0, pairs).contains_key(pairs[i].0),
        after_inserts(m0, pairs)[pairs[i].0] == pairs[i].1,
    decreases pairs.len(),
{
    if i == pairs.len() - 1 {
    } else {
        lemma_find_after_insert(m0, pairs.drop_last(), i);
        assert(pairs.drop_last()[i] == pairs[i]);
        assert(pairs[i].0 != pairs.last().0);
    }
}

/// Growth preserves all entries: inserting `pairs.len()` distinct fresh keys
/// leaves the table holding exactly `m0.len() + pairs.len()` entries — no
/// growth along the way loses or duplicates one — and, with
/// `lemma_find_after_insert`, each still resolves to its value.
pub proof fn lemma_inserts_count<K, V>(m0: Map<K, V>, pairs: Seq<(K, V)>)
    requires
        m0.dom().finite(),
        forall|a: int, b: int| 0 <= a < b < pairs.len() ==> (#[trigger] pairs[a]).0 != (
        #[trigger] pairs[b]).0,
        forall|a: int| 0 <= a < pairs.len() ==> !m0.contains_key((#[trigger] pairs[a]).0),
    ensures
        after_inserts(m0, pairs).len() == m0.len() + pairs.len(),
        after_inserts(m0, pairs).dom().finite(),
    decreases pairs.len(),
{
    if pairs.len() > 0 {
        lemma_inserts_count(m0, pairs.drop_last());
        let prev = after_inserts(m0, pairs.drop_last());
        let k = pairs.last().0;
        assert(!prev.contains_key(k)) by {
            if prev.contains_key(k) {
                lemma_after_inserts_key_source(m0, pairs.drop_last(), k);
                if !m0.contains_key(k) {
                    let a = choose|a: int|
                        0 <= a < pairs.drop_last().len() && (#[trigger] pairs.drop_last()[a]).0
                            == k;
                    assert(pairs[a].0 == k && pairs[pairs.len() - 1].0 == k);
                }
                assert(false);
            }
        }
        assert(prev.insert(k, pairs.last().1).dom() =~= prev.dom().insert(k));
        vstd::set::axiom_set_insert_len(prev.dom(), k);
    }
}

/// Every key present after the inserts was present before or is one of the
/// inserted keys.
pub proof fn lemma_after_inserts_key_source<K, V>(m0: Map<K, V>, pairs: Seq<(K, V)>, k: K)
    requires
        after_inserts(m0, pairs).contains_key(k),
    ensures
        m0.contains_key(k) || exists|a: int| 0 <= a < pairs.len() && (#[trigger] pairs[a]).0 == k,
    decreases pairs.len(),
{
    if pairs.len() > 0 && pairs.last().0 != k {
        lemma_after_inserts_key_source(m0, pairs.drop_last(), k);
        if !m0.contains_key(k) {
            let a = choose|a: int|
                0 <= a < pairs.drop_last().len() && (#[trigger] pairs.drop_last()[a]).0 == k;
            assert(pairs[a].0 == k);
        }
    } else if pairs.len() > 0 {
        assert(pairs[pairs.len() - 1].0 == k);
    }
}

/// Delete-then-absent: removing a key leaves it unresolvable, and shrinks the
/// entry count by exactly one when it was present, by nothing otherwise.
/// `delete` ensures `self@ == old(self)@.remove(k)` and `access` returns
/// `None` exactly on absent keys.
pub proof fn lemma_delete_then_absent<K, V>(m: Map<K, V>, k: K)
    requires
        m.dom().finite(),
    ensures
        !m.remove(k).contains_key(k),
        m.contains_key(k) ==> m.remove(k).len() == m.len() - 1,
        !m.contains_key(k) ==> m.remove(k).len() == m.len(),
    {
    vstd::set::axiom_set_remove_len(m.dom(), k);
    if !m.contains_key(k) {
        assert(m.remove(k).dom() =~= m.dom());
    }
}

/// Extend is a union with overwrite: every key of `b` resolves to `b`'s
/// value, keys only in `a` are unaffected, and the key set is the union of
/// the two key sets. `extend` ensures
/// `self@ == old(self)@.union_prefer_right(b@)`.
pub proof fn lemma_extend_union<K, V>(a: Map<K, V>, b: Map<K, V>, k: K)
    ensures
        b.contains_key(k) ==> a.union_prefer_right(b).contains_key(k) && a.union_prefer_right(b)[k]
            == b[k],
        a.contains_key(k) && !b.contains_key(k) ==> a.union_prefer_right(b).contains_key(k)
            && a.union_prefer_right(b)[k] == a[k],
        a.union_prefer_right(b).dom() == a.dom().union(b.dom()),
{
    assert(a.union_prefer_right(b).dom() =~= a.dom().union(b.dom()));
}

/// Idempotent overwrite: inserting twice under one key keeps the second
/// value and leaves the entry count unchanged.
pub proof fn lemma_idempotent_overwrite<K, V>(m: Map<K, V>, k: K, v1: V, v2: V)
    ensures
        m.insert(k, v1).insert(k, v2) == m.insert(k, v2),
        m.insert(k, v1).insert(k, v2).len() == m.insert(k, v1).len(),
{
    assert(m.insert(k, v1).insert(k, v2) =~= m.insert(k, v2));
    assert(m.insert(k, v1).insert(k, v2).dom() =~= m.insert(k, v1).dom());
}

} // verus!
