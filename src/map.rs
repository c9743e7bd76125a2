use crate::order::KeyOrder;
use core::cmp::Ordering;
use vstd::prelude::*;
use vstd::slice::slice_subrange;

verus! {

/// Keys strictly increase along the sequence, so no key occurs twice.
pub open spec fn sorted_by_key<K: KeyOrder, V>(s: Seq<(K, V)>) -> bool {
    forall|i: int, j: int| 0 <= i < j < s.len() ==> #[trigger] s[i].0.less(#[trigger] s[j].0)
}

/// Some entry of `s` has the key `k`.
pub open spec fn has_key<K, V>(s: Seq<(K, V)>, k: K) -> bool {
    exists|i: int| 0 <= i < s.len() && #[trigger] s[i].0 == k
}

/// One end of a key interval.
#[derive(Clone, Copy, Debug)]
pub enum KeyBound<K> {
    Included(K),
    Excluded(K),
    Unbounded,
}

/// The key `k` lies inside the interval from `start` to `end`.
pub open spec fn in_bounds<K: KeyOrder>(start: KeyBound<K>, end: KeyBound<K>, k: K) -> bool {
    &&& match start {
        KeyBound::Included(x) => !k.less(x),
        KeyBound::Excluded(x) => x.less(k),
        KeyBound::Unbounded => true,
    }
    &&& match end {
        KeyBound::Included(x) => !x.less(k),
        KeyBound::Excluded(x) => k.less(x),
        KeyBound::Unbounded => true,
    }
}

/// Tests an entry's key against the interval from `start` to `end`.
pub open spec fn entry_in_bounds<K: KeyOrder, V>(start: KeyBound<K>, end: KeyBound<K>) -> spec_fn((K, V)) -> bool {
    |e: (K, V)| in_bounds(start, end, e.0)
}

/// The entries of `s` whose keys lie inside the interval, in their order in `s`.
pub open spec fn entries_in<K: KeyOrder, V>(s: Seq<(K, V)>, start: KeyBound<K>, end: KeyBound<K>) -> Seq<(K, V)> {
    s.filter(entry_in_bounds(start, end))
}

/// The items of `s` whose flag in `keep` is set, in their order in `s`.
pub open spec fn kept<T>(s: Seq<T>, keep: Seq<bool>) -> Seq<T>
    decreases s.len(),
{
    if s.len() == 0 {
        s
    } else {
        let rest = kept(s.drop_last(), keep.drop_last());
        if keep.last() {
            rest.push(s.last())
        } else {
            rest
        }
    }
}

/// A key between two keys that lie inside an interval lies inside it too.
pub proof fn lemma_bounds_convex<K: KeyOrder>(start: KeyBound<K>, end: KeyBound<K>, x: K, y: K, z: K)
    requires
        x.less(y),
        y.less(z),
        in_bounds(start, end, x),
        in_bounds(start, end, z),
    ensures
        in_bounds(start, end, y),
{
    match start {
        KeyBound::Included(b) => {
            if y.less(b) {
                K::lemma_transitive(x, y, b);
            }
        },
        KeyBound::Excluded(b) => {
            K::lemma_transitive(b, x, y);
        },
        KeyBound::Unbounded => {},
    }
    match end {
        KeyBound::Included(b) => {
            if b.less(y) {
                K::lemma_transitive(b, y, z);
            }
        },
        KeyBound::Excluded(b) => {
            K::lemma_transitive(y, z, b);
        },
        KeyBound::Unbounded => {},
    }
}

/// Filtering a sequence whose matching items form one block `[a, b)` yields that block.
proof fn lemma_filter_block<A>(s: Seq<A>, pred: spec_fn(A) -> bool, a: int, b: int)
    requires
        0 <= a <= b <= s.len(),
        forall|i: int| 0 <= i < s.len() ==> (pred(#[trigger] s[i]) <==> a <= i < b),
    ensures
        s.filter(pred) == s.subrange(a, b),
    decreases s.len(),
{
    reveal(Seq::filter);
    if s.len() == 0 {
        assert(s.subrange(a, b) =~= s);
    } else {
        let t = s.drop_last();
        let n = s.len() - 1;
        if b == s.len() && a < b {
            lemma_filter_block(t, pred, a, b - 1);
            assert(s.subrange(a, b) =~= t.subrange(a, b - 1).push(s.last()));
        } else {
            let bb = if b > n { n } else { b };
            let aa = if a > bb { bb } else { a };
            assert(!pred(s[n]));
            lemma_filter_block(t, pred, aa, bb);
            assert(s.subrange(a, b) =~= t.subrange(aa, bb));
        }
    }
}

/// Removing any entry keeps the entries sorted.
proof fn lemma_remove_sorted<K: KeyOrder, V>(s: Seq<(K, V)>, w: int)
    requires
        sorted_by_key(s),
        0 <= w < s.len(),
    ensures
        sorted_by_key(s.remove(w)),
{
    let t = s.remove(w);
    assert forall|i: int, j: int| 0 <= i < j < t.len() implies #[trigger] t[i].0.less(#[trigger] t[j].0) by {
        if j < w {
            assert(s[i].0.less(s[j].0));
        } else if i < w {
            assert(s[i].0.less(s[j + 1].0));
        } else {
            assert(s[i + 1].0.less(s[j + 1].0));
        }
    }
}

/// The key-to-value map that a sequence of entries stands for; where a key
/// occurs more than once, its last entry wins.
pub open spec fn to_map<K, V>(s: Seq<(K, V)>) -> Map<K, V>
    decreases s.len(),
{
    if s.len() == 0 {
        Map::empty()
    } else {
        to_map(s.drop_last()).insert(s.last().0, s.last().1)
    }
}

/// A prefix of sorted entries is sorted.
proof fn lemma_sorted_drop_last<K: KeyOrder, V>(s: Seq<(K, V)>)
    requires
        sorted_by_key(s),
        s.len() > 0,
    ensures
        sorted_by_key(s.drop_last()),
{
    let t = s.drop_last();
    assert forall|i: int, j: int| 0 <= i < j < t.len() implies #[trigger] t[i].0.less(#[trigger] t[j].0) by {
        assert(s[i].0.less(s[j].0));
    }
}

/// For sorted entries, the model holds exactly their keys, each with its value.
pub proof fn lemma_to_map_sorted<K: KeyOrder, V>(s: Seq<(K, V)>)
    requires
        sorted_by_key(s),
    ensures
        forall|k: K| #[trigger] to_map(s).contains_key(k) <==> has_key(s, k),
        forall|i: int| 0 <= i < s.len() ==> to_map(s)[#[trigger] s[i].0] == s[i].1,
    decreases s.len(),
{
    if s.len() > 0 {
        let t = s.drop_last();
        let n = s.len() - 1;
        lemma_sorted_drop_last(s);
        lemma_to_map_sorted(t);
        assert forall|i: int| 0 <= i < s.len() implies to_map(s)[#[trigger] s[i].0] == s[i].1 by {
            if i < n {
                assert(s[i].0.less(s[n].0));
                K::lemma_irreflexive(s[i].0);
                assert(t[i] == s[i]);
            }
        }
        assert forall|k: K| #[trigger] to_map(s).contains_key(k) <==> has_key(s, k) by {
            if has_key(s, k) {
                let i = choose|i: int| 0 <= i < s.len() && #[trigger] s[i].0 == k;
                if i < n {
                    assert(t[i].0 == k);
                }
            }
            if to_map(t).contains_key(k) {
                let i = choose|i: int| 0 <= i < t.len() && #[trigger] t[i].0 == k;
                assert(s[i].0 == k);
            }
        }
    }
}

/// Sorted entries are determined by the map they stand for: two sorted
/// sequences with the same model are the same sequence.
pub proof fn lemma_enumeration_determined<K: KeyOrder, V>(a: Seq<(K, V)>, b: Seq<(K, V)>)
    requires
        sorted_by_key(a),
        sorted_by_key(b),
        to_map(a) == to_map(b),
    ensures
        a == b,
    decreases a.len() + b.len(),
{
    lemma_to_map_sorted(a);
    lemma_to_map_sorted(b);
    if a.len() == 0 && b.len() > 0 {
        assert(to_map(b).contains_key(b[0].0));
    } else if b.len() == 0 && a.len() > 0 {
        assert(to_map(a).contains_key(a[0].0));
    } else if a.len() > 0 && b.len() > 0 {
        let ka = a.last().0;
        let kb = b.last().0;
        let na = a.len() - 1;
        let nb = b.len() - 1;
        assert(to_map(a).contains_key(kb));
        let i = choose|i: int| 0 <= i < a.len() && #[trigger] a[i].0 == kb;
        assert(to_map(b).contains_key(ka));
        let j = choose|j: int| 0 <= j < b.len() && #[trigger] b[j].0 == ka;
        if i < na && j < nb {
            assert(a[i].0.less(a[na].0));
            assert(b[j].0.less(b[nb].0));
            K::lemma_transitive(kb, ka, kb);
            K::lemma_irreflexive(kb);
        } else if i < na {
            assert(a[i].0.less(a[na].0));
            K::lemma_irreflexive(ka);
        } else if j < nb {
            assert(b[j].0.less(b[nb].0));
            K::lemma_irreflexive(kb);
        }
        assert(ka == kb);
        assert(a.last().1 == to_map(a)[ka]);
        assert(b.last().1 == to_map(b)[kb]);
        let ta = a.drop_last();
        let tb = b.drop_last();
        lemma_sorted_drop_last(a);
        lemma_sorted_drop_last(b);
        lemma_to_map_sorted(ta);
        lemma_to_map_sorted(tb);
        assert(!to_map(ta).contains_key(ka)) by {
            if to_map(ta).contains_key(ka) {
                let x = choose|x: int| 0 <= x < ta.len() && #[trigger] ta[x].0 == ka;
                assert(a[x].0.less(a[na].0));
                K::lemma_irreflexive(ka);
            }
        }
        assert(!to_map(tb).contains_key(kb)) by {
            if to_map(tb).contains_key(kb) {
                let x = choose|x: int| 0 <= x < tb.len() && #[trigger] tb[x].0 == kb;
                assert(b[x].0.less(b[nb].0));
                K::lemma_irreflexive(kb);
            }
        }
        assert(to_map(ta) =~= to_map(a).remove(ka));
        assert(to_map(tb) =~= to_map(b).remove(kb));
        lemma_enumeration_determined(ta, tb);
        assert(a =~= ta.push(a.last()));
        assert(b =~= tb.push(b.last()));
    }
}

/// Within sorted entries, a key found at one index is found at no other.
proof fn lemma_key_index_unique<K: KeyOrder, V>(s: Seq<(K, V)>, i: int, j: int)
    requires
        sorted_by_key(s),
        0 <= i < s.len(),
        0 <= j < s.len(),
        s[i].0 == s[j].0,
    ensures
        i == j,
{
    K::lemma_irreflexive(s[i].0);
    if i < j {
        assert(s[i].0.less(s[j].0));
    } else if j < i {
        assert(s[j].0.less(s[i].0));
    }
}

/// Replacing the entry of a key replaces that key's value in the model.
proof fn lemma_to_map_update<K: KeyOrder, V>(s: Seq<(K, V)>, i: int, e: (K, V))
    requires
        sorted_by_key(s),
        sorted_by_key(s.update(i, e)),
        0 <= i < s.len(),
        s[i].0 == e.0,
    ensures
        to_map(s.update(i, e)) == to_map(s).insert(e.0, e.1),
{
    let t = s.update(i, e);
    let m = to_map(s).insert(e.0, e.1);
    lemma_to_map_sorted(s);
    lemma_to_map_sorted(t);
    assert(t[i].0 == e.0);
    assert forall|k: K| #[trigger] to_map(t).contains_key(k) <==> m.contains_key(k) by {
        if has_key(t, k) {
            let j = choose|j: int| 0 <= j < t.len() && #[trigger] t[j].0 == k;
            if j != i {
                assert(s[j].0 == k);
            }
        }
        if has_key(s, k) {
            let j = choose|j: int| 0 <= j < s.len() && #[trigger] s[j].0 == k;
            assert(t[j].0 == k);
        }
    }
    assert forall|k: K| #[trigger] to_map(t).contains_key(k) implies to_map(t)[k] == m[k] by {
        let j = choose|j: int| 0 <= j < t.len() && #[trigger] t[j].0 == k;
        if j != i {
            if k == e.0 {
                lemma_key_index_unique(t, i, j);
            }
            assert(s[j] == t[j]);
        }
    }
    assert(to_map(t) =~= m);
}

/// Inserting an entry with a new key adds that key to the model.
proof fn lemma_to_map_insert<K: KeyOrder, V>(s: Seq<(K, V)>, i: int, e: (K, V))
    requires
        sorted_by_key(s),
        sorted_by_key(s.insert(i, e)),
        0 <= i <= s.len(),
        !has_key(s, e.0),
    ensures
        to_map(s.insert(i, e)) == to_map(s).insert(e.0, e.1),
{
    let t = s.insert(i, e);
    let m = to_map(s).insert(e.0, e.1);
    lemma_to_map_sorted(s);
    lemma_to_map_sorted(t);
    assert(t[i].0 == e.0);
    assert forall|k: K| #[trigger] to_map(t).contains_key(k) <==> m.contains_key(k) by {
        if has_key(t, k) {
            let j = choose|j: int| 0 <= j < t.len() && #[trigger] t[j].0 == k;
            if j < i {
                assert(s[j].0 == k);
            } else if j > i {
                assert(s[j - 1].0 == k);
            }
        }
        if has_key(s, k) {
            let j = choose|j: int| 0 <= j < s.len() && #[trigger] s[j].0 == k;
            if j < i {
                assert(t[j].0 == k);
            } else {
                assert(t[j + 1].0 == k);
            }
        }
    }
    assert forall|k: K| #[trigger] to_map(t).contains_key(k) implies to_map(t)[k] == m[k] by {
        let j = choose|j: int| 0 <= j < t.len() && #[trigger] t[j].0 == k;
        if j != i {
            if k == e.0 {
                lemma_key_index_unique(t, i, j);
            }
            if j < i {
                assert(s[j] == t[j]);
            } else {
                assert(s[j - 1] == t[j]);
            }
        }
    }
    assert(to_map(t) =~= m);
}

/// Removing an entry removes its key from the model.
proof fn lemma_to_map_remove<K: KeyOrder, V>(s: Seq<(K, V)>, i: int)
    requires
        sorted_by_key(s),
        0 <= i < s.len(),
    ensures
        to_map(s.remove(i)) == to_map(s).remove(s[i].0),
{
    let t = s.remove(i);
    let k0 = s[i].0;
    let m = to_map(s).remove(k0);
    lemma_remove_sorted(s, i);
    lemma_to_map_sorted(s);
    lemma_to_map_sorted(t);
    assert forall|k: K| #[trigger] to_map(t).contains_key(k) <==> m.contains_key(k) by {
        if has_key(t, k) {
            let j = choose|j: int| 0 <= j < t.len() && #[trigger] t[j].0 == k;
            if j < i {
                assert(s[j].0 == k);
                if k == k0 {
                    lemma_key_index_unique(s, i, j);
                }
            } else {
                assert(s[j + 1].0 == k);
                if k == k0 {
                    lemma_key_index_unique(s, i, j + 1);
                }
            }
        }
        if has_key(s, k) && k != k0 {
            let j = choose|j: int| 0 <= j < s.len() && #[trigger] s[j].0 == k;
            if j < i {
                assert(t[j].0 == k);
            } else {
                assert(t[j - 1].0 == k);
            }
        }
    }
    assert forall|k: K| #[trigger] to_map(t).contains_key(k) implies to_map(t)[k] == m[k] by {
        let j = choose|j: int| 0 <= j < t.len() && #[trigger] t[j].0 == k;
        if j < i {
            assert(s[j] == t[j]);
        } else {
            assert(s[j + 1] == t[j]);
        }
    }
    assert(to_map(t) =~= m);
}

/// Selecting entries from sorted entries keeps them sorted, and each selected
/// entry comes from the given sequence.
proof fn lemma_filter_sorted<K: KeyOrder, V>(s: Seq<(K, V)>, p: spec_fn((K, V)) -> bool)
    requires
        sorted_by_key(s),
    ensures
        sorted_by_key(s.filter(p)),
        forall|j: int| 0 <= j < s.filter(p).len() ==> s.contains(#[trigger] s.filter(p)[j]),
    decreases s.len(),
{
    reveal(Seq::filter);
    if s.len() > 0 {
        let t = s.drop_last();
        let n = s.len() - 1;
        lemma_sorted_drop_last(s);
        lemma_filter_sorted(t, p);
        let f = t.filter(p);
        if p(s.last()) {
            let g = f.push(s.last());
            assert forall|x: int, y: int| 0 <= x < y < g.len() implies #[trigger] g[x].0.less(#[trigger] g[y].0) by {
                if y == f.len() {
                    assert(t.contains(f[x]));
                    let i = choose|i: int| 0 <= i < t.len() && t[i] == f[x];
                    assert(s[i].0.less(s[n].0));
                } else {
                    assert(f[x].0.less(f[y].0));
                }
            }
            assert forall|j: int| 0 <= j < g.len() implies s.contains(#[trigger] g[j]) by {
                if j == f.len() {
                    assert(s[n] == g[j]);
                } else {
                    assert(t.contains(f[j]));
                    let i = choose|i: int| 0 <= i < t.len() && t[i] == f[j];
                    assert(s[i] == g[j]);
                }
            }
        } else {
            assert forall|j: int| 0 <= j < f.len() implies s.contains(#[trigger] f[j]) by {
                assert(t.contains(f[j]));
                let i = choose|i: int| 0 <= i < t.len() && t[i] == f[j];
                assert(s[i] == f[j]);
            }
        }
    }
}

/// In sorted entries, the entries inside an interval come in ascending key
/// order, and there are none when no key lies inside it.
pub proof fn lemma_entries_in_sorted<K: KeyOrder, V>(s: Seq<(K, V)>, start: KeyBound<K>, end: KeyBound<K>)
    requires
        sorted_by_key(s),
    ensures
        sorted_by_key(entries_in(s, start, end)),
        (forall|i: int| 0 <= i < s.len() ==> !in_bounds(start, end, #[trigger] s[i].0))
            ==> entries_in(s, start, end) == Seq::<(K, V)>::empty(),
{
    let p = entry_in_bounds::<K, V>(start, end);
    lemma_filter_sorted(s, p);
    if forall|i: int| 0 <= i < s.len() ==> !in_bounds(start, end, #[trigger] s[i].0) {
        lemma_filter_block(s, p, 0, 0);
        assert(s.subrange(0, 0) =~= Seq::<(K, V)>::empty());
    }
}

/// Putting entries with the same keys in place of a block of sorted entries
/// keeps them sorted.
proof fn lemma_splice_keys_kept<K: KeyOrder, V>(s: Seq<(K, V)>, a: int, b: int, f: Seq<(K, V)>)
    requires
        sorted_by_key(s),
        0 <= a <= b <= s.len(),
    ensures
        (f.len() == b - a && forall|i: int| 0 <= i < b - a ==> #[trigger] f[i].0 == s[a + i].0)
            ==> sorted_by_key(s.subrange(0, a) + f + s.subrange(b, s.len() as int)),
{
    if f.len() == b - a && forall|i: int| 0 <= i < b - a ==> #[trigger] f[i].0 == s[a + i].0 {
        let w = s.subrange(0, a) + f + s.subrange(b, s.len() as int);
        assert forall|i: int| 0 <= i < s.len() implies #[trigger] w[i].0 == s[i].0 by {
            if a <= i < b {
                assert(f[i - a].0 == s[a + (i - a)].0);
            }
        }
        assert forall|i: int, j: int| 0 <= i < j < w.len() implies #[trigger] w[i].0.less(#[trigger] w[j].0) by {
            assert(w[i].0 == s[i].0);
            assert(w[j].0 == s[j].0);
            assert(s[i].0.less(s[j].0));
        }
    }
}

/// An ordered map kept as a vector of entries sorted by key.
#[derive(Clone, Debug)]
pub struct VecMap<K, V> {
    data: Vec<(K, V)>,
}

impl<K, V> View for VecMap<K, V> {
    type V = Seq<(K, V)>;

    closed spec fn view(&self) -> Seq<(K, V)> {
        self.data@
    }
}

/// Decides whether `k` lies inside the interval from `start` to `end`.
pub fn bound_holds<K: KeyOrder>(start: &KeyBound<K>, end: &KeyBound<K>, k: &K) -> (r: bool)
    ensures
        r == in_bounds(*start, *end, *k),
{
    let above = match start {
        KeyBound::Included(x) => !matches!(k.order(x), Ordering::Less),
        KeyBound::Excluded(x) => matches!(x.order(k), Ordering::Less),
        KeyBound::Unbounded => true,
    };
    let below = match end {
        KeyBound::Included(x) => !matches!(x.order(k), Ordering::Less),
        KeyBound::Excluded(x) => matches!(k.order(x), Ordering::Less),
        KeyBound::Unbounded => true,
    };
    above && below
}

/// Binary search for `key` among the sorted entries: `Ok` with the index of
/// the entry that has it, or `Err` with the index where it would be inserted.
fn locate<K: KeyOrder, V>(data: &Vec<(K, V)>, key: &K) -> (r: Result<usize, usize>)
    requires
        sorted_by_key(data@),
    ensures
        match r {
            Ok(i) => i < data@.len() && data@[i as int].0 == *key,
            Err(i) => {
                &&& i <= data@.len()
                &&& forall|j: int| 0 <= j < i ==> #[trigger] data@[j].0.less(*key)
                &&& forall|j: int| i <= j < data@.len() ==> key.less(#[trigger] data@[j].0)
            },
        },
{
    let mut lo: usize = 0;
    let mut hi: usize = data.len();
    while lo < hi
        invariant
            lo <= hi <= data@.len(),
            sorted_by_key(data@),
            forall|j: int| 0 <= j < lo ==> #[trigger] data@[j].0.less(*key),
            forall|j: int| hi <= j < data@.len() ==> key.less(#[trigger] data@[j].0),
        decreases hi - lo,
    {
        let mid = lo + (hi - lo) / 2;
        match data[mid].0.order(key) {
            Ordering::Equal => {
                return Ok(mid);
            },
            Ordering::Less => {
                proof {
                    assert forall|j: int| 0 <= j < mid + 1 implies #[trigger] data@[j].0.less(*key) by {
                        if j < mid {
                            K::lemma_transitive(data@[j].0, data@[mid as int].0, *key);
                        }
                    }
                }
                lo = mid + 1;
            },
            Ordering::Greater => {
                proof {
                    assert forall|j: int| mid <= j < data@.len() implies key.less(#[trigger] data@[j].0) by {
                        if j > mid {
                            K::lemma_transitive(*key, data@[mid as int].0, data@[j].0);
                        }
                    }
                }
                hi = mid;
            },
        }
    }
    Err(lo)
}

impl<K: KeyOrder, V> VecMap<K, V> {
    /// The entries are sorted by key and their keys are unique.
    pub open spec fn wf(&self) -> bool {
        sorted_by_key(self@)
    }

    pub fn new() -> (r: Self)
        ensures
            r.wf(),
            r@ == Seq::<(K, V)>::empty(),
    {
        VecMap { data: Vec::new() }
    }

    pub fn insert(&mut self, key: K, value: V) -> (r: Option<V>)
        requires
            old(self).wf(),
        ensures
            final(self).wf(),
            match r {
                Some(prev) => exists|i: int|
                    0 <= i < old(self)@.len() && #[trigger] old(self)@[i].0 == key
                        && prev == old(self)@[i].1
                        && final(self)@ == old(self)@.update(i, (key, value)),
                None => !has_key(old(self)@, key) && exists|i: int|
                    0 <= i <= old(self)@.len() && final(self)@ == #[trigger] old(self)@.insert(i, (key, value)),
            },
            to_map(final(self)@) == to_map(old(self)@).insert(key, value),
            r == (if to_map(old(self)@).contains_key(key) { Some(to_map(old(self)@)[key]) } else { None }),
    {
        proof {
            lemma_to_map_sorted(self.data@);
        }
        match locate(&self.data, &key) {
            Ok(idx) => {
                let ghost e = (key, value);
                let mut entry = (key, value);
                std::mem::swap(&mut self.data[idx], &mut entry);
                proof {
                    lemma_to_map_update(old(self)@, idx as int, e);
                }
                Some(entry.1)
            },
            Err(idx) => {
                proof {
                    assert forall|j: int| 0 <= j < old(self)@.len() implies #[trigger] old(self)@[j].0 != key by {
                        K::lemma_irreflexive(key);
                    }
                }
                self.data.insert(idx, (key, value));
                proof {
                    let s = self.data@;
                    assert forall|i: int, j: int| 0 <= i < j < s.len() implies #[trigger] s[i].0.less(#[trigger] s[j].0) by {
                        if i < idx && j == idx {
                        } else if i == idx && j > idx {
                        } else if i < idx && j > idx {
                            K::lemma_transitive(s[i].0, key, s[j].0);
                        } else if j < idx {
                            assert(old(self)@[i].0.less(old(self)@[j].0));
                        } else {
                            assert(old(self)@[i - 1].0.less(old(self)@[j - 1].0));
                        }
                    }
                    lemma_to_map_insert(old(self)@, idx as int, (key, value));
                }
                None
            },
        }
    }

    pub fn clear(&mut self)
        ensures
            final(self).wf(),
            final(self)@ == Seq::<(K, V)>::empty(),
    {
        self.data.clear();
    }

    pub fn is_empty(&self) -> (r: bool)
        ensures
            r == (self@.len() == 0),
    {
        self.data.len() == 0
    }

    pub fn len(&self) -> (r: usize)
        ensures
            r == self@.len(),
    {
        self.data.len()
    }

    /// All entries in ascending key order.
    pub fn iter(&self) -> (r: &[(K, V)])
        ensures
            r@ == self@,
    {
        self.data.as_slice()
    }

    /// All values in ascending order of their keys.
    pub fn values(&self) -> (r: Vec<&V>)
        ensures
            r@.len() == self@.len(),
            forall|i: int| 0 <= i < r@.len() ==> *#[trigger] r@[i] == self@[i].1,
    {
        let mut r: Vec<&V> = Vec::new();
        let mut i: usize = 0;
        while i < self.data.len()
            invariant
                i <= self@.len(),
                r@.len() == i,
                forall|j: int| 0 <= j < i ==> *#[trigger] r@[j] == self@[j].1,
            decreases self@.len() - i,
        {
            r.push(&self.data[i].1);
            i = i + 1;
        }
        r
    }

    /// A handle to the value stored under `key`; the key itself cannot be changed through it.
    pub fn get_mut(&mut self, key: &K) -> (r: Option<&mut V>)
        requires
            old(self).wf(),
        ensures
            match r {
                Some(v) => exists|i: int|
                    0 <= i < old(self)@.len() && #[trigger] old(self)@[i].0 == *key && *v == old(self)@[i].1
                        && final(self)@ == old(self)@.update(i, (*key, *final(v))),
                None => !has_key(old(self)@, *key) && final(self)@ == old(self)@,
            },
            final(self).wf(),
    {
        match locate(&self.data, key) {
            Ok(idx) => {
                proof {
                    let s = self.data@;
                    assert forall|x: V| #[trigger] sorted_by_key(s.update(idx as int, (*key, x))) by {
                        let t = s.update(idx as int, (*key, x));
                        assert forall|i: int, j: int| 0 <= i < j < t.len() implies #[trigger] t[i].0.less(#[trigger] t[j].0) by {
                            assert(s[i].0.less(s[j].0));
                        }
                    }
                }
                Some(&mut self.data[idx].1)
            },
            Err(_) => {
                proof {
                    K::lemma_irreflexive(*key);
                }
                None
            },
        }
    }

    pub fn get(&self, key: &K) -> (r: Option<&V>)
        requires
            self.wf(),
        ensures
            match r {
                Some(v) => exists|i: int| 0 <= i < self@.len() && #[trigger] self@[i].0 == *key && *v == self@[i].1,
                None => !has_key(self@, *key),
            },
            r is Some == to_map(self@).contains_key(*key),
            r is Some ==> *r.unwrap() == to_map(self@)[*key],
    {
        proof {
            lemma_to_map_sorted(self@);
        }
        match locate(&self.data, key) {
            Ok(idx) => Some(&self.data[idx].1),
            Err(_) => {
                proof {
                    K::lemma_irreflexive(*key);
                }
                None
            },
        }
    }

    pub fn get_key_value(&self, key: &K) -> (r: Option<(&K, &V)>)
        requires
            self.wf(),
        ensures
            match r {
                Some((k, v)) => exists|i: int| 0 <= i < self@.len() && #[trigger] self@[i].0 == *key && *k == *key && *v == self@[i].1,
                None => !has_key(self@, *key),
            },
            r is Some == to_map(self@).contains_key(*key),
            r is Some ==> *r.unwrap().1 == to_map(self@)[*key],
    {
        proof {
            lemma_to_map_sorted(self@);
        }
        match locate(&self.data, key) {
            Ok(idx) => Some((&self.data[idx].0, &self.data[idx].1)),
            Err(_) => {
                proof {
                    K::lemma_irreflexive(*key);
                }
                None
            },
        }
    }

    pub fn remove(&mut self, key: &K) -> (r: Option<(K, V)>)
        requires
            old(self).wf(),
        ensures
            final(self).wf(),
            match r {
                Some(e) => exists|i: int|
                    0 <= i < old(self)@.len() && #[trigger] old(self)@[i] == e && e.0 == *key
                        && final(self)@ == old(self)@.remove(i),
                None => !has_key(old(self)@, *key) && final(self)@ == old(self)@,
            },
            to_map(final(self)@) == to_map(old(self)@).remove(*key),
            r is Some == to_map(old(self)@).contains_key(*key),
            r is Some ==> r.unwrap() == (*key, to_map(old(self)@)[*key]),
    {
        proof {
            lemma_to_map_sorted(self@);
        }
        match locate(&self.data, key) {
            Ok(idx) => {
                proof {
                    lemma_remove_sorted(self.data@, idx as int);
                    lemma_to_map_remove(self.data@, idx as int);
                }
                Some(self.data.remove(idx))
            },
            Err(_) => {
                proof {
                    K::lemma_irreflexive(*key);
                    assert(to_map(self@).remove(*key) =~= to_map(self@));
                }
                None
            },
        }
    }

    /// Finds the block of entries whose keys lie inside the interval: scans
    /// forward for the first such entry, then backward for the last.
    fn interval(&self, start: &KeyBound<K>, end: &KeyBound<K>) -> (r: (usize, usize))
        requires
            self.wf(),
        ensures
            r.0 <= r.1 <= self@.len(),
            entries_in(self@, *start, *end) == self@.subrange(r.0 as int, r.1 as int),
    {
        let n = self.data.len();
        let mut first: usize = 0;
        let mut found = false;
        while first < n && !found
            invariant
                first <= n == self@.len(),
                found ==> first < n && in_bounds(*start, *end, self@[first as int].0),
                forall|j: int| 0 <= j < first ==> !in_bounds(*start, *end, #[trigger] self@[j].0),
            decreases n - first + (if found { 0int } else { 1int }),
        {
            if bound_holds(start, end, &self.data[first].0) {
                found = true;
            } else {
                first = first + 1;
            }
        }
        if !found {
            proof {
                lemma_filter_block(self@, entry_in_bounds(*start, *end), 0, 0);
            }
            return (0, 0);
        }
        let mut last: usize = n;
        let mut done = false;
        while last > first && !done
            invariant
                first < n == self@.len(),
                forall|j: int| 0 <= j < first ==> !in_bounds(*start, *end, #[trigger] self@[j].0),
                first < last <= n || (!done && first == last),
                in_bounds(*start, *end, self@[first as int].0),
                done ==> in_bounds(*start, *end, self@[last - 1].0),
                forall|j: int| last <= j < n ==> !in_bounds(*start, *end, #[trigger] self@[j].0),
            decreases last + (if done { 0int } else { 1int }),
        {
            if bound_holds(start, end, &self.data[last - 1].0) {
                done = true;
            } else {
                last = last - 1;
            }
        }
        proof {
            if !done {
                assert(!in_bounds(*start, *end, self@[first as int].0));
            }
            assert forall|j: int| 0 <= j < n implies (entry_in_bounds(*start, *end)(#[trigger] self@[j])
                <==> first <= j < last) by {
                if first < j < last - 1 {
                    lemma_bounds_convex(*start, *end, self@[first as int].0, self@[j].0, self@[last - 1].0);
                }
            }
            lemma_filter_block(self@, entry_in_bounds(*start, *end), first as int, last as int);
        }
        (first, last)
    }

    /// The entries whose keys lie inside the interval from `start` to `end`,
    /// in ascending key order.
    pub fn range(&self, start: KeyBound<K>, end: KeyBound<K>) -> (r: &[(K, V)])
        requires
            self.wf(),
        ensures
            r@ == entries_in(self@, start, end),
    {
        let (first, last) = self.interval(&start, &end);
        slice_subrange(self.data.as_slice(), first, last)
    }

    /// Mutable access to the entries whose keys lie inside the interval, in
    /// ascending key order. The slice holds whole entries, so it also reaches
    /// the keys: the map stays well formed when the caller leaves every key
    /// as it was and changes only values (writes through the slice keep its
    /// length, which the first part of that clause asks for).
    pub fn range_mut(&mut self, start: KeyBound<K>, end: KeyBound<K>) -> (r: &mut [(K, V)])
        requires
            old(self).wf(),
        ensures
            r@ == entries_in(old(self)@, start, end),
            exists|a: int, b: int|
                0 <= a <= b <= old(self)@.len() && r@ == old(self)@.subrange(a, b)
                    && final(self)@ == old(self)@.subrange(0, a) + final(r)@ + old(self)@.subrange(b, old(self)@.len() as int),
            (final(r)@.len() == r@.len() && forall|i: int| 0 <= i < r@.len() ==> #[trigger] final(r)@[i].0 == r@[i].0)
                ==> final(self).wf(),
    {
        let (first, last) = self.interval(&start, &end);
        let all = self.data.as_mut_slice();
        let (head, rest) = all.split_at_mut(first);
        let (mid, tail) = rest.split_at_mut(last - first);
        proof {
            lemma_splice_keys_kept(old(self)@, first as int, last as int, final(mid)@);
            assert(head@ =~= old(self)@.subrange(0, first as int));
            assert(tail@ =~= old(self)@.subrange(last as int, old(self)@.len() as int));
            assert(final(head)@ + (final(mid)@ + final(tail)@) =~= old(self)@.subrange(0, first as int) + final(mid)@
                + old(self)@.subrange(last as int, old(self)@.len() as int));
        }
        mid
    }

    /// Mutable access to all entries in ascending key order. The slice holds
    /// whole entries, so it also reaches the keys: the map stays well formed
    /// when the caller leaves every key as it was and changes only values.
    pub fn iter_mut(&mut self) -> (r: &mut [(K, V)])
        requires
            old(self).wf(),
        ensures
            r@ == old(self)@,
            final(self)@ == final(r)@,
            (final(r)@.len() == r@.len() && forall|i: int| 0 <= i < r@.len() ==> #[trigger] final(r)@[i].0 == r@[i].0)
                ==> final(self).wf(),
    {
        let all = self.data.as_mut_slice();
        proof {
            lemma_splice_keys_kept(old(self)@, 0, old(self)@.len() as int, final(all)@);
            assert(old(self)@.subrange(0, 0) + final(all)@ + old(self)@.subrange(old(self)@.len() as int, old(self)@.len() as int)
                =~= final(all)@);
        }
        all
    }

    /// Keeps the entries for which `f` returns true, in their order.
    /// The predicate sees each value by shared reference: what a call does
    /// to a value behind `&mut` could not be carried through this loop's
    /// invariant, so values are left as they are.
    pub fn retain<F: Fn(&K, &V) -> bool>(&mut self, f: F)
        requires
            old(self).wf(),
            forall|k: &K, v: &V| f.requires((k, v)),
        ensures
            final(self).wf(),
            exists|keep: Seq<bool>|
                keep.len() == old(self)@.len()
                && (forall|i: int| 0 <= i < keep.len() ==> f.ensures((&old(self)@[i].0, &old(self)@[i].1), #[trigger] keep[i]))
                && final(self)@ == kept(old(self)@, keep),
    {
        let ghost s0 = self.data@;
        let ghost mut keep: Seq<bool> = Seq::empty();
        let n = self.data.len();
        let mut i: usize = 0;
        let mut w: usize = 0;
        while i < n
            invariant
                n == s0.len(),
                i <= n,
                keep.len() == i,
                w <= i,
                kept(s0.subrange(0, i as int), keep).len() == w,
                self.data@ == kept(s0.subrange(0, i as int), keep) + s0.subrange(i as int, n as int),
                sorted_by_key(self.data@),
                forall|j: int| 0 <= j < i ==> f.ensures((&s0[j].0, &s0[j].1), #[trigger] keep[j]),
                forall|k: &K, v: &V| f.requires((k, v)),
            decreases n - i,
        {
            let ghost before = kept(s0.subrange(0, i as int), keep);
            assert(self.data@[w as int] == s0[i as int]);
            let b = f(&self.data[w].0, &self.data[w].1);
            proof {
                let old_keep = keep;
                keep = keep.push(b);
                assert(s0.subrange(0, i + 1).drop_last() =~= s0.subrange(0, i as int));
                assert(keep.drop_last() =~= old_keep);
                assert(kept(s0.subrange(0, i + 1), keep) == if b { before.push(s0[i as int]) } else { before });
            }
            if !b {
                proof {
                    lemma_remove_sorted(self.data@, w as int);
                }
                self.data.remove(w);
                proof {
                    assert(self.data@ =~= before + s0.subrange(i + 1, n as int));
                }
            } else {
                proof {
                    assert(self.data@ =~= before.push(s0[i as int]) + s0.subrange(i + 1, n as int));
                }
                w = w + 1;
            }
            i = i + 1;
        }
        proof {
            assert(s0.subrange(0, n as int) =~= s0);
            assert(self.data@ =~= kept(s0, keep));
        }
    }
}

} // verus!
