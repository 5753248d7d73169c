use tree_multi_set::Bound;
use tree_multi_set::TreeMultiSet;

#[test]
fn test_count() {
    let mut set: TreeMultiSet = TreeMultiSet::new();
    set.insert(1);
    set.insert(2);
    set.insert(3);
    set.insert(4);
    set.insert(4);
    set.insert(5);
    set.insert(3);

    assert_eq!(set.count(1), 1);
    assert_eq!(set.count(2), 1);
    assert_eq!(set.count(3), 2);
    assert_eq!(set.count(4), 2);
    assert_eq!(set.count(5), 1);
    assert_eq!(set.count(6), 0);
}

#[test]
fn test_empty_test() {
    let mut set: TreeMultiSet = TreeMultiSet::new();
    assert!(set.is_empty());
    assert_eq!(set.len(), 0);
    assert_eq!(set.first(), None);
    assert_eq!(set.last(), None);
    assert_eq!(set.pop_first(), None);
    assert_eq!(set.pop_last(), None);
    assert_eq!(set.iter().first(), None);
    assert_eq!(set.range(Bound::Included(0), Bound::Excluded(10)).first(), None);
    assert_eq!(set.range(Bound::Unbounded, Bound::Unbounded).first(), None);
}

#[test]
fn test_insert_remove() {
    let mut set: TreeMultiSet = TreeMultiSet::new();
    set.insert(1);
    set.insert(2);
    set.insert(3);
    set.insert(4);
    set.insert(4);
    set.insert(5);
    set.insert(3);

    assert_eq!(set.len(), 7);
    assert_eq!(set.first(), Some(1));
    assert_eq!(set.last(), Some(5));
    assert_eq!(set.pop_first(), Some(1));
    assert_eq!(set.first(), Some(2));
    assert_eq!(set.len(), 6);
    assert_eq!(set.pop_last(), Some(5));
    assert_eq!(set.last(), Some(4));
    assert_eq!(set.len(), 5);

    assert_eq!(set.remove_one(3), Some(3));
    assert_eq!(set.len(), 4);
    assert_eq!(set.remove_one(3), Some(3));
    assert_eq!(set.len(), 3);
    assert_eq!(set.remove_one(3), None);
    assert_eq!(set.len(), 3);

    assert_eq!(set.remove_all(4), Some(4));
    assert_eq!(set.len(), 1);
    assert_eq!(set.remove_all(4), None);

    assert_eq!(set.iter(), vec![2]);
}

#[test]
fn test_contains() {
    let mut set: TreeMultiSet = TreeMultiSet::new();
    set.insert(1);
    set.insert(2);
    set.insert(3);
    set.insert(4);
    set.insert(4);
    set.insert(5);

    assert!(set.contains(1));
    assert!(set.contains(2));
    assert!(set.contains(3));
    assert!(set.contains(4));
    assert!(set.contains(5));

    assert!(!set.contains(6));
    assert!(!set.contains(7));
}

#[test]
fn test_iter() {
    let mut set = TreeMultiSet::new();
    set.insert(1);
    set.insert(2);
    set.insert(3);
    set.insert(3);
    set.insert(4);
    set.insert(5);
    set.insert(5);

    assert_eq!(set.iter(), vec![1, 2, 3, 3, 4, 5, 5]);
}

#[test]
fn test_rev_iter() {
    let mut set = TreeMultiSet::new();
    set.insert(1);
    set.insert(2);
    set.insert(3);
    set.insert(3);
    set.insert(4);
    set.insert(5);
    set.insert(5);

    assert_eq!(set.iter_rev(), vec![5, 5, 4, 3, 3, 2, 1]);
}

#[test]
fn test_range() {
    let mut set = TreeMultiSet::new();
    for i in 1..=4 {
        for _ in 0..i {
            set.insert(i);
        }
    }

    assert_eq!(
        set.range(Bound::Included(1), Bound::Included(4)),
        vec![1, 2, 2, 3, 3, 3, 4, 4, 4, 4]
    );
    assert_eq!(set.range(Bound::Included(1), Bound::Excluded(3)), vec![1, 2, 2]);
    assert_eq!(set.range(Bound::Unbounded, Bound::Excluded(3)), vec![1, 2, 2]);
    assert_eq!(set.range(Bound::Unbounded, Bound::Included(3)), vec![1, 2, 2, 3, 3, 3]);
    assert_eq!(set.range_rev(Bound::Unbounded, Bound::Included(3)), vec![3, 3, 3, 2, 2, 1]);
    assert_eq!(
        set.range(Bound::Included(2), Bound::Unbounded),
        vec![2, 2, 3, 3, 3, 4, 4, 4, 4]
    );
    assert_eq!(
        set.range_rev(Bound::Included(2), Bound::Included(4)),
        vec![4, 4, 4, 4, 3, 3, 3, 2, 2]
    );
}
