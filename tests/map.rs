use vecmap::{bound_holds, KeyBound, VecMap};

fn entries(m: &VecMap<u64, &'static str>) -> Vec<(u64, &'static str)> {
    m.iter().to_vec()
}

#[test]
fn inserts_enumerate_in_key_order() {
    let mut m: VecMap<u64, &str> = VecMap::new();
    m.insert(3, "c");
    m.insert(1, "a");
    m.insert(2, "b");
    assert_eq!(entries(&m), vec![(1, "a"), (2, "b"), (3, "c")]);
}

#[test]
fn repeated_key_keeps_last_value() {
    let mut m: VecMap<u64, &str> = VecMap::new();
    for (k, v) in [(5, "e"), (2, "b"), (5, "E"), (9, "i"), (2, "B"), (1, "a")] {
        m.insert(k, v);
    }
    assert_eq!(entries(&m), vec![(1, "a"), (2, "B"), (5, "E"), (9, "i")]);
    assert_eq!(m.len(), 4);
}

#[test]
fn insert_then_get() {
    let mut m: VecMap<u64, &str> = VecMap::new();
    assert_eq!(m.insert(7, "x"), None);
    assert_eq!(m.get(&7), Some(&"x"));
    assert_eq!(m.insert(7, "y"), Some("x"));
    assert_eq!(m.get(&7), Some(&"y"));
    assert_eq!(m.get(&8), None);
    assert_eq!(m.len(), 1);
}

#[test]
fn get_key_value_finds_entry() {
    let mut m: VecMap<u64, &str> = VecMap::new();
    m.insert(4, "d");
    m.insert(2, "b");
    assert_eq!(m.get_key_value(&4), Some((&4, &"d")));
    assert_eq!(m.get_key_value(&3), None);
}

#[test]
fn get_mut_changes_value_only() {
    let mut m: VecMap<u64, u64> = VecMap::new();
    m.insert(1, 10);
    m.insert(2, 20);
    if let Some(v) = m.get_mut(&2) {
        *v += 5;
    }
    assert!(m.get_mut(&3).is_none());
    assert_eq!(m.iter().to_vec(), vec![(1, 10), (2, 25)]);
}

#[test]
fn remove_then_get_absent() {
    let mut m: VecMap<u64, &str> = VecMap::new();
    m.insert(1, "a");
    m.insert(2, "b");
    assert_eq!(m.remove(&2), Some((2, "b")));
    assert_eq!(m.get(&2), None);
    assert_eq!(entries(&m), vec![(1, "a")]);
}

#[test]
fn remove_missing_key_leaves_map() {
    let mut m: VecMap<u64, &str> = VecMap::new();
    m.insert(1, "a");
    assert_eq!(m.remove(&2), None);
    assert_eq!(entries(&m), vec![(1, "a")]);
}

#[test]
fn range_selects_interval() {
    let mut m: VecMap<u64, &str> = VecMap::new();
    for (k, v) in [(1, "a"), (2, "b"), (4, "d"), (5, "e"), (7, "g")] {
        m.insert(k, v);
    }
    let r = m.range(KeyBound::Included(2), KeyBound::Excluded(5));
    assert_eq!(r.to_vec(), vec![(2, "b"), (4, "d")]);
    let r = m.range(KeyBound::Excluded(2), KeyBound::Included(5));
    assert_eq!(r.to_vec(), vec![(4, "d"), (5, "e")]);
    let r = m.range(KeyBound::Unbounded, KeyBound::Excluded(4));
    assert_eq!(r.to_vec(), vec![(1, "a"), (2, "b")]);
    let r = m.range(KeyBound::Included(5), KeyBound::Unbounded);
    assert_eq!(r.to_vec(), vec![(5, "e"), (7, "g")]);
    let r = m.range(KeyBound::Unbounded, KeyBound::Unbounded);
    assert_eq!(r.len(), 5);
}

#[test]
fn range_empty_cases() {
    let empty: VecMap<u64, &str> = VecMap::new();
    assert!(empty.range(KeyBound::Included(0), KeyBound::Included(10)).is_empty());
    let mut m: VecMap<u64, &str> = VecMap::new();
    m.insert(1, "a");
    m.insert(9, "i");
    assert!(m.range(KeyBound::Included(2), KeyBound::Included(8)).is_empty());
    assert!(m.range(KeyBound::Excluded(9), KeyBound::Unbounded).is_empty());
    assert!(m.range(KeyBound::Included(5), KeyBound::Included(3)).is_empty());
}

#[test]
fn retain_keeps_matching_in_order() {
    let mut m: VecMap<u64, u64> = VecMap::new();
    for k in [6, 1, 4, 3, 2, 5] {
        m.insert(k, k * 10);
    }
    m.retain(|k: &u64, _v: &u64| k % 2 == 0);
    assert_eq!(m.iter().to_vec(), vec![(2, 20), (4, 40), (6, 60)]);
    m.retain(|_k: &u64, v: &u64| *v > 100);
    assert!(m.is_empty());
}

#[test]
fn retain_adjacent_removals() {
    let mut m: VecMap<u64, u64> = VecMap::new();
    for k in 0..8u64 {
        m.insert(k, k);
    }
    m.retain(|k: &u64, _v: &u64| *k == 0 || *k == 7);
    assert_eq!(m.iter().to_vec(), vec![(0, 0), (7, 7)]);
}

#[test]
fn values_and_clear() {
    let mut m: VecMap<u64, &str> = VecMap::new();
    assert!(m.is_empty());
    m.insert(2, "b");
    m.insert(1, "a");
    let vals: Vec<&str> = m.values().into_iter().copied().collect();
    assert_eq!(vals, vec!["a", "b"]);
    m.clear();
    assert!(m.is_empty());
    assert_eq!(m.len(), 0);
}

#[test]
fn signed_keys_sort() {
    let mut m: VecMap<i64, u8> = VecMap::new();
    m.insert(3, 0);
    m.insert(-7, 1);
    m.insert(0, 2);
    let keys: Vec<i64> = m.iter().iter().map(|e| e.0).collect();
    assert_eq!(keys, vec![-7, 0, 3]);
}

#[test]
fn bound_holds_ends() {
    assert!(bound_holds(&KeyBound::Included(2u64), &KeyBound::Included(4), &2));
    assert!(bound_holds(&KeyBound::Included(2u64), &KeyBound::Included(4), &4));
    assert!(!bound_holds(&KeyBound::Excluded(2u64), &KeyBound::Included(4), &2));
    assert!(!bound_holds(&KeyBound::Included(2u64), &KeyBound::Excluded(4), &4));
    assert!(bound_holds(&KeyBound::Unbounded, &KeyBound::<u64>::Unbounded, &0));
}

#[test]
fn range_mut_changes_values_in_interval() {
    let mut m: VecMap<u64, u64> = VecMap::new();
    for k in [1, 2, 3, 4, 5] {
        m.insert(k, k * 10);
    }
    for e in m.range_mut(KeyBound::Excluded(1), KeyBound::Included(3)) {
        e.1 += 1;
    }
    assert_eq!(m.iter().to_vec(), vec![(1, 10), (2, 21), (3, 31), (4, 40), (5, 50)]);
    assert!(m.range_mut(KeyBound::Included(6), KeyBound::Unbounded).is_empty());
}

#[test]
fn iter_mut_changes_all_values() {
    let mut m: VecMap<u64, u64> = VecMap::new();
    m.insert(2, 1);
    m.insert(1, 2);
    for e in m.iter_mut() {
        e.1 *= 3;
    }
    assert_eq!(m.iter().to_vec(), vec![(1, 6), (2, 3)]);
}

#[test]
fn pair_keys_sort_lexicographically() {
    let mut m: VecMap<(u32, u32), &str> = VecMap::new();
    m.insert((2, 1), "c");
    m.insert((1, 9), "b");
    m.insert((1, 2), "a");
    m.insert((2, 1), "C");
    let keys: Vec<(u32, u32)> = m.iter().iter().map(|e| e.0).collect();
    assert_eq!(keys, vec![(1, 2), (1, 9), (2, 1)]);
    assert_eq!(m.get(&(2, 1)), Some(&"C"));
}
