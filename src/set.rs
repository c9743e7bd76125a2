use crate::map::{entries_in, has_key, in_bounds, lemma_to_map_sorted, to_map, KeyBound, VecMap};
use crate::order::KeyOrder;
use vstd::prelude::*;

verus! {

/// The keys of a sequence of entries, in the same order.
pub open spec fn keys_of<K, V>(s: Seq<(K, V)>) -> Seq<K> {
    s.map_values(|e: (K, V)| e.0)
}

/// Keys strictly increase along the sequence, so no key occurs twice.
pub open spec fn sorted_keys<K: KeyOrder>(s: Seq<K>) -> bool {
    forall|i: int, j: int| 0 <= i < j < s.len() ==> #[trigger] s[i].less(#[trigger] s[j])
}

/// The keys of `s` that lie inside the interval, in their order in `s`.
pub open spec fn keys_in<K: KeyOrder>(s: Seq<K>, start: KeyBound<K>, end: KeyBound<K>) -> Seq<K> {
    s.filter(|k: K| in_bounds(start, end, k))
}

/// Taking the keys and selecting those in an interval commute.
proof fn lemma_keys_of_entries_in<K: KeyOrder, V>(s: Seq<(K, V)>, start: KeyBound<K>, end: KeyBound<K>)
    ensures
        keys_of(entries_in(s, start, end)) == keys_in(keys_of(s), start, end),
    decreases s.len(),
{
    reveal(Seq::filter);
    if s.len() == 0 {
        assert(keys_of(entries_in(s, start, end)) =~= keys_in(keys_of(s), start, end));
    } else {
        let t = s.drop_last();
        lemma_keys_of_entries_in(t, start, end);
        assert(keys_of(s).drop_last() =~= keys_of(t));
        let sub = entries_in(t, start, end);
        assert(keys_of(sub.push(s.last())) =~= keys_of(sub).push(s.last().0));
    }
}

/// A key occurs among the keys of `s` exactly when some entry of `s` has it.
proof fn lemma_keys_of_contains<K, V>(s: Seq<(K, V)>)
    ensures
        forall|x: K| #[trigger] keys_of(s).contains(x) <==> has_key(s, x),
{
    assert forall|x: K| #[trigger] keys_of(s).contains(x) <==> has_key(s, x) by {
        if keys_of(s).contains(x) {
            let j = choose|j: int| 0 <= j < keys_of(s).len() && keys_of(s)[j] == x;
            assert(s[j].0 == x);
        }
        if has_key(s, x) {
            let j = choose|j: int| 0 <= j < s.len() && #[trigger] s[j].0 == x;
            assert(keys_of(s)[j] == x);
        }
    }
}

/// An ordered set of keys kept as one sorted vector.
#[derive(Clone, Debug)]
pub struct VecSet<K> {
    map: VecMap<K, ()>,
}

impl<K> View for VecSet<K> {
    type V = Seq<K>;

    closed spec fn view(&self) -> Seq<K> {
        keys_of(self.map@)
    }
}

impl<K: KeyOrder> VecSet<K> {
    /// The keys are sorted and unique.
    pub closed spec fn wf(&self) -> bool {
        self.map.wf()
    }

    /// A well-formed set enumerates its keys in strictly ascending order.
    pub proof fn lemma_wf_sorted(&self)
        requires
            self.wf(),
        ensures
            sorted_keys(self@),
    {
        let s = self.map@;
        assert forall|i: int, j: int| 0 <= i < j < self@.len() implies #[trigger] self@[i].less(#[trigger] self@[j]) by {
            assert(s[i].0.less(s[j].0));
        }
    }

    pub fn new() -> (r: Self)
        ensures
            r.wf(),
            r@ == Seq::<K>::empty(),
    {
        let r = VecSet { map: VecMap::new() };
        assert(r@ =~= Seq::<K>::empty());
        r
    }

    pub fn clear(&mut self)
        ensures
            final(self).wf(),
            final(self)@ == Seq::<K>::empty(),
    {
        self.map.clear();
        assert(self@ =~= Seq::<K>::empty());
    }

    pub fn is_empty(&self) -> (r: bool)
        ensures
            r == (self@.len() == 0),
    {
        self.map.is_empty()
    }

    pub fn len(&self) -> (r: usize)
        ensures
            r == self@.len(),
    {
        self.map.len()
    }

    /// All keys in ascending order.
    pub fn iter(&self) -> (r: Vec<&K>)
        ensures
            r@.len() == self@.len(),
            forall|i: int| 0 <= i < r@.len() ==> *#[trigger] r@[i] == self@[i],
    {
        let entries = self.map.iter();
        let mut r: Vec<&K> = Vec::new();
        let mut i: usize = 0;
        while i < entries.len()
            invariant
                entries@ == self.map@,
                i <= entries@.len(),
                r@.len() == i,
                forall|j: int| 0 <= j < i ==> *#[trigger] r@[j] == self@[j],
            decreases entries@.len() - i,
        {
            r.push(&entries[i].0);
            i = i + 1;
        }
        r
    }

    pub fn contains(&self, key: &K) -> (r: bool)
        requires
            self.wf(),
        ensures
            r == self@.contains(*key),
    {
        let found = self.map.get(key);
        proof {
            if found.is_some() {
                let i = choose|i: int| 0 <= i < self.map@.len() && #[trigger] self.map@[i].0 == *key && *found.unwrap() == self.map@[i].1;
                assert(self@[i] == *key);
            }
            if self@.contains(*key) {
                let j = choose|j: int| 0 <= j < self@.len() && self@[j] == *key;
                assert(self.map@[j].0 == *key);
            }
        }
        found.is_some()
    }

    /// The stored key equal to `key`, if there is one.
    pub fn get(&self, key: &K) -> (r: Option<&K>)
        requires
            self.wf(),
        ensures
            match r {
                Some(k) => *k == *key && self@.contains(*key),
                None => !self@.contains(*key),
            },
    {
        match self.map.get_key_value(key) {
            Some((k, _)) => {
                proof {
                    let i = choose|i: int| 0 <= i < self.map@.len() && #[trigger] self.map@[i].0 == *key;
                    assert(self@[i] == *key);
                }
                Some(k)
            },
            None => {
                proof {
                    if self@.contains(*key) {
                        let j = choose|j: int| 0 <= j < self@.len() && self@[j] == *key;
                        assert(self.map@[j].0 == *key);
                    }
                }
                None
            },
        }
    }

    /// Adds `key` unless an equal key is already present.
    pub fn insert(&mut self, key: K)
        requires
            old(self).wf(),
        ensures
            final(self).wf(),
            old(self)@.contains(key) ==> final(self)@ == old(self)@,
            !old(self)@.contains(key) ==> exists|i: int|
                0 <= i <= old(self)@.len() && final(self)@ == #[trigger] old(self)@.insert(i, key),
            forall|x: K| #[trigger] final(self)@.contains(x) <==> (old(self)@.contains(x) || x == key),
    {
        let ghost before = self.map@;
        let ghost k = key;
        let prev = self.map.insert(key, ());
        proof {
            lemma_to_map_sorted(before);
            lemma_to_map_sorted(self.map@);
            lemma_keys_of_contains(before);
            lemma_keys_of_contains(self.map@);
            assert forall|x: K| #[trigger] self@.contains(x) <==> (old(self)@.contains(x) || x == k) by {
                assert(to_map(self.map@).contains_key(x) == to_map(before).insert(k, ()).contains_key(x));
            }
            match prev {
                Some(_) => {
                    let i = choose|i: int| 0 <= i < before.len() && #[trigger] before[i].0 == k
                        && self.map@ == before.update(i, (k, ()));
                    assert(keys_of(self.map@) =~= keys_of(before));
                    assert(keys_of(before)[i] == k);
                },
                None => {
                    let i = choose|i: int| 0 <= i <= before.len() && self.map@ == #[trigger] before.insert(i, (k, ()));
                    assert(keys_of(self.map@) =~= keys_of(before).insert(i, k));
                    if keys_of(before).contains(k) {
                        let j = choose|j: int| 0 <= j < keys_of(before).len() && keys_of(before)[j] == k;
                        assert(before[j].0 == k);
                    }
                },
            }
        }
    }

    /// Removes and returns the key equal to `key`, if there is one.
    pub fn remove(&mut self, key: &K) -> (r: Option<K>)
        requires
            old(self).wf(),
        ensures
            final(self).wf(),
            match r {
                Some(k) => k == *key && exists|i: int|
                    0 <= i < old(self)@.len() && #[trigger] old(self)@[i] == *key
                        && final(self)@ == old(self)@.remove(i),
                None => !old(self)@.contains(*key) && final(self)@ == old(self)@,
            },
            forall|x: K| #[trigger] final(self)@.contains(x) <==> (old(self)@.contains(x) && x != *key),
    {
        let ghost before = self.map@;
        let r = self.map.remove(key);
        proof {
            lemma_to_map_sorted(before);
            lemma_to_map_sorted(self.map@);
            lemma_keys_of_contains(before);
            lemma_keys_of_contains(self.map@);
            assert forall|x: K| #[trigger] self@.contains(x) <==> (old(self)@.contains(x) && x != *key) by {
                assert(to_map(self.map@).contains_key(x) == to_map(before).remove(*key).contains_key(x));
            }
        }
        match r {
            Some(e) => {
                proof {
                    let i = choose|i: int| 0 <= i < before.len() && #[trigger] before[i] == e
                        && e.0 == *key && self.map@ == before.remove(i);
                    assert(keys_of(self.map@) =~= keys_of(before).remove(i));
                    assert(keys_of(before)[i] == *key);
                    assert(old(self)@[i] == *key);
                    assert(self@ == old(self)@.remove(i));
                }
                Some(e.0)
            },
            None => {
                proof {
                    if keys_of(before).contains(*key) {
                        let j = choose|j: int| 0 <= j < keys_of(before).len() && keys_of(before)[j] == *key;
                        assert(before[j].0 == *key);
                    }
                }
                None
            },
        }
    }

    /// The keys inside the interval from `start` to `end`, in ascending order.
    pub fn range(&self, start: KeyBound<K>, end: KeyBound<K>) -> (r: Vec<&K>)
        requires
            self.wf(),
        ensures
            r@.len() == keys_in(self@, start, end).len(),
            forall|i: int| 0 <= i < r@.len() ==> *#[trigger] r@[i] == keys_in(self@, start, end)[i],
    {
        let entries = self.map.range(start, end);
        proof {
            lemma_keys_of_entries_in(self.map@, start, end);
        }
        let mut r: Vec<&K> = Vec::new();
        let mut i: usize = 0;
        while i < entries.len()
            invariant
                entries@ == entries_in(self.map@, start, end),
                keys_of(entries@) == keys_in(self@, start, end),
                i <= entries@.len(),
                r@.len() == i,
                forall|j: int| 0 <= j < i ==> *#[trigger] r@[j] == entries@[j].0,
            decreases entries@.len() - i,
        {
            r.push(&entries[i].0);
            i = i + 1;
        }
        r
    }
}

} // verus!
