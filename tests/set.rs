use vecmap::{KeyBound, VecSet};

fn keys(s: &VecSet<u32>) -> Vec<u32> {
    s.iter().into_iter().copied().collect()
}

#[test]
fn set_range_inclusive() {
    let mut s: VecSet<u32> = VecSet::new();
    for k in [5, 1, 4, 2] {
        s.insert(k);
    }
    let r: Vec<u32> = s.range(KeyBound::Included(2), KeyBound::Included(4)).into_iter().copied().collect();
    assert_eq!(r, vec![2, 4]);
}

#[test]
fn set_insert_dedups_and_sorts() {
    let mut s: VecSet<u32> = VecSet::new();
    for k in [3, 1, 3, 2, 1] {
        s.insert(k);
    }
    assert_eq!(keys(&s), vec![1, 2, 3]);
    assert_eq!(s.len(), 3);
}

#[test]
fn set_contains_get_remove() {
    let mut s: VecSet<u32> = VecSet::new();
    s.insert(10);
    s.insert(20);
    assert!(s.contains(&10));
    assert!(!s.contains(&15));
    assert_eq!(s.get(&20), Some(&20));
    assert_eq!(s.get(&21), None);
    assert_eq!(s.remove(&10), Some(10));
    assert_eq!(s.remove(&10), None);
    assert!(!s.contains(&10));
    assert_eq!(keys(&s), vec![20]);
}

#[test]
fn set_empty_range_and_clear() {
    let mut s: VecSet<u32> = VecSet::new();
    assert!(s.is_empty());
    assert!(s.range(KeyBound::Unbounded, KeyBound::Unbounded).is_empty());
    s.insert(1);
    s.insert(2);
    assert!(s.range(KeyBound::Excluded(2), KeyBound::Unbounded).is_empty());
    s.clear();
    assert!(s.is_empty());
}
