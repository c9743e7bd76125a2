use crate::map::{has_key, lemma_enumeration_determined, lemma_to_map_sorted, sorted_by_key, to_map};
use crate::order::KeyOrder;
use vstd::prelude::*;

verus! {

/// The model of any sequence of entries holds exactly the keys that occur in it.
pub proof fn lemma_to_map_keys<K, V>(ops: Seq<(K, V)>)
    ensures
        forall|k: K| #[trigger] to_map(ops).contains_key(k) <==> has_key(ops, k),
    decreases ops.len(),
{
    if ops.len() > 0 {
        let t = ops.drop_last();
        let n = ops.len() - 1;
        assert(t.len() == n);
        lemma_to_map_keys(t);
        assert(to_map(ops) == to_map(t).insert(ops[n].0, ops[n].1));
        assert forall|k: K| #[trigger] to_map(ops).contains_key(k) <==> has_key(ops, k) by {
            if has_key(ops, k) {
                let i = choose|i: int| 0 <= i < ops.len() && #[trigger] ops[i].0 == k;
                if i < n {
                    assert(t[i].0 == k);
                    assert(has_key(t, k));
                }
            }
            if has_key(t, k) {
                let i = choose|i: int| 0 <= i < t.len() && #[trigger] t[i].0 == k;
                assert(ops[i].0 == k);
            }
            if k == ops[n].0 {
                assert(has_key(ops, k));
            }
        }
    }
}

/// Inserting the entries of `ops` one after another leaves a map whose model
/// is `to_map(ops)`, each key with the last value written under it. Any two
/// sorted enumerations with that model are the same sequence, and it holds
/// each inserted key exactly once, with its last written value.
pub proof fn lemma_inserts_enumeration<K: KeyOrder, V>(ops: Seq<(K, V)>, s: Seq<(K, V)>, t: Seq<(K, V)>)
    requires
        sorted_by_key(s),
        sorted_by_key(t),
        to_map(s) == to_map(ops),
        to_map(t) == to_map(ops),
    ensures
        s == t,
        forall|k: K| has_key(s, k) <==> has_key(ops, k),
        forall|i: int| 0 <= i < s.len() ==> #[trigger] s[i].1 == to_map(ops)[s[i].0],
{
    lemma_enumeration_determined(s, t);
    lemma_to_map_sorted(s);
    lemma_to_map_keys(ops);
    assert forall|k: K| has_key(s, k) <==> has_key(ops, k) by {
        assert(to_map(s).contains_key(k) <==> has_key(s, k));
        assert(to_map(ops).contains_key(k) <==> has_key(ops, k));
    }
}

/// One more insert extends the model of the inserts made so far: if a map
/// stands for `ops` and inserting `(key, value)` updates its model, the result
/// stands for `ops` followed by that entry.
pub proof fn lemma_inserts_step<K, V>(ops: Seq<(K, V)>, before: Map<K, V>, after: Map<K, V>, key: K, value: V)
    requires
        before == to_map(ops),
        after == before.insert(key, value),
    ensures
        after == to_map(ops.push((key, value))),
{
    assert(ops.push((key, value)).drop_last() =~= ops);
}

/// Inserting `(k, v)` and then looking `k` up gives `v`; inserting `k` again
/// then reports `v` as the previous value and leaves the new value in place.
pub proof fn lemma_get_after_insert<K, V>(m: Map<K, V>, k: K, v: V, w: V)
    ensures
        m.insert(k, v).contains_key(k),
        m.insert(k, v)[k] == v,
        m.insert(k, v).insert(k, w) == m.insert(k, w),
        m.insert(k, v).insert(k, w)[k] == w,
{
    assert(m.insert(k, v).insert(k, w) =~= m.insert(k, w));
}

/// After removing `k`, looking `k` up finds nothing; removing a key that is
/// absent leaves the model as it was.
pub proof fn lemma_get_after_remove<K, V>(m: Map<K, V>, k: K)
    ensures
        !m.remove(k).contains_key(k),
        !m.contains_key(k) ==> m.remove(k) == m,
{
    if !m.contains_key(k) {
        assert(m.remove(k) =~= m);
    }
}

} // verus!
