use tree_multi_set::Bound;
use tree_multi_set::TreeMultiSet;

#[test]
fn test_clear_resets_everything() {
    let mut set = TreeMultiSet::new();
    set.insert(3);
    set.insert(3);
    set.insert(-7);
    assert_eq!(set.len(), 3);
    set.clear();
    assert!(set.is_empty());
    assert_eq!(set.len(), 0);
    assert_eq!(set.iter(), Vec::<i64>::new());
    set.clear();
    assert!(set.is_empty());
    set.insert(1);
    assert_eq!(set.len(), 1);
    assert_eq!(set.first(), Some(1));
}

#[test]
fn test_size_tracks_operations() {
    let mut set = TreeMultiSet::new();
    let mut successful: i64 = 0;
    for k in [5, 5, 5, 2, 9, 2, 5] {
        set.insert(k);
        successful += 1;
        assert_eq!(set.len() as i64, successful);
    }
    assert_eq!(set.remove_one(5), Some(5));
    successful -= 1;
    assert_eq!(set.len() as i64, successful);
    assert_eq!(set.remove_one(4), None);
    assert_eq!(set.len() as i64, successful);
    assert_eq!(set.remove_all(2), Some(2));
    successful -= 2;
    assert_eq!(set.len() as i64, successful);

    let sum_of_counts = set.count(5) + set.count(9);
    assert_eq!(set.len(), sum_of_counts);
    set.clear();
    assert_eq!(set.len(), 0);
}

#[test]
fn test_count_zero_iff_not_contained() {
    let mut set = TreeMultiSet::new();
    set.insert(1);
    set.insert(1);
    set.insert(4);
    for k in [-1, 0, 1, 2, 3, 4, 5] {
        assert_eq!(set.count(k) == 0, !set.contains(k));
    }
    set.remove_all(1);
    for k in [-1, 0, 1, 2, 3, 4, 5] {
        assert_eq!(set.count(k) == 0, !set.contains(k));
    }
}

#[test]
fn test_insert_then_remove_one_restores_count() {
    let mut set = TreeMultiSet::new();
    set.insert(3);
    set.insert(3);
    set.insert(8);

    let before = set.count(3);
    set.insert(3);
    assert_eq!(set.remove_one(3), Some(3));
    assert_eq!(set.count(3), before);

    let before_absent = set.count(11);
    assert_eq!(before_absent, 0);
    set.insert(11);
    assert_eq!(set.remove_one(11), Some(11));
    assert_eq!(set.count(11), before_absent);
    assert_eq!(set.count(8), 1);
}

#[test]
fn test_remove_all_then_contains_false() {
    let mut set = TreeMultiSet::new();
    for _ in 0..5 {
        set.insert(6);
    }
    set.insert(2);
    assert_eq!(set.remove_all(6), Some(6));
    assert!(!set.contains(6));
    assert_eq!(set.count(6), 0);
    assert_eq!(set.remove_all(6), None);
    assert!(!set.contains(6));
    assert!(set.contains(2));
}

#[test]
fn test_iter_sorted_with_consecutive_counts() {
    let mut set = TreeMultiSet::new();
    for k in [9, -3, 4, 9, 4, 9, 0] {
        set.insert(k);
    }
    let elems = set.iter();
    for w in elems.windows(2) {
        assert!(w[0] <= w[1]);
    }
    for k in [-3, 0, 4, 9] {
        let run: Vec<i64> = elems.iter().copied().filter(|x| *x == k).collect();
        assert_eq!(run.len(), set.count(k));
        let first_pos = elems.iter().position(|x| *x == k).unwrap();
        assert_eq!(elems[first_pos..first_pos + run.len()], run[..]);
    }
}

#[test]
fn test_range_rev_equals_forward_reversed() {
    let mut set = TreeMultiSet::new();
    for k in [1, 2, 3, 3, 4, 5, 5] {
        set.insert(k);
    }
    let bounds = [
        (Bound::Unbounded, Bound::Unbounded),
        (Bound::Included(2), Bound::Included(4)),
        (Bound::Excluded(2), Bound::Excluded(5)),
        (Bound::Included(4), Bound::Excluded(4)),
        (Bound::Excluded(5), Bound::Unbounded),
    ];
    for (lo, hi) in bounds {
        let mut forward = set.range(lo, hi);
        forward.reverse();
        assert_eq!(set.range_rev(lo, hi), forward);
    }
}

#[test]
fn test_range_examples() {
    let mut set = TreeMultiSet::new();
    for k in [1, 2, 3, 3, 4, 5, 5] {
        set.insert(k);
    }
    assert_eq!(set.range(Bound::Included(1), Bound::Included(3)), vec![1, 2, 3, 3]);
    assert_eq!(set.range(Bound::Unbounded, Bound::Excluded(3)), vec![1, 2]);
    assert_eq!(
        set.range_rev(Bound::Included(2), Bound::Unbounded),
        vec![5, 5, 4, 3, 3, 2]
    );
}

#[test]
fn test_excluded_and_empty_ranges() {
    let mut set = TreeMultiSet::new();
    for k in [1, 2, 2, 3] {
        set.insert(k);
    }
    assert_eq!(set.range(Bound::Excluded(1), Bound::Excluded(3)), vec![2, 2]);
    assert_eq!(set.range(Bound::Excluded(3), Bound::Unbounded), Vec::<i64>::new());
    assert_eq!(set.range(Bound::Included(3), Bound::Excluded(3)), Vec::<i64>::new());
    assert_eq!(set.range_rev(Bound::Included(3), Bound::Excluded(3)), Vec::<i64>::new());
    assert_eq!(set.range(Bound::Included(2), Bound::Included(2)), vec![2, 2]);
}

#[test]
fn test_pop_drains_in_order() {
    let mut set = TreeMultiSet::new();
    for k in [4, 1, 4, 2] {
        set.insert(k);
    }
    assert_eq!(set.pop_first(), Some(1));
    assert_eq!(set.pop_first(), Some(2));
    assert_eq!(set.pop_first(), Some(4));
    assert_eq!(set.pop_first(), Some(4));
    assert_eq!(set.pop_first(), None);
    assert!(set.is_empty());

    for k in [4, 1, 4, 2] {
        set.insert(k);
    }
    assert_eq!(set.pop_last(), Some(4));
    assert_eq!(set.pop_last(), Some(4));
    assert_eq!(set.pop_last(), Some(2));
    assert_eq!(set.pop_last(), Some(1));
    assert_eq!(set.pop_last(), None);
}

#[test]
fn test_negative_and_extreme_elements() {
    let mut set = TreeMultiSet::new();
    set.insert(i64::MAX);
    set.insert(i64::MIN);
    set.insert(0);
    set.insert(i64::MIN);
    assert_eq!(set.first(), Some(i64::MIN));
    assert_eq!(set.last(), Some(i64::MAX));
    assert_eq!(set.count(i64::MIN), 2);
    assert_eq!(set.iter(), vec![i64::MIN, i64::MIN, 0, i64::MAX]);
    assert_eq!(set.iter_rev(), vec![i64::MAX, 0, i64::MIN, i64::MIN]);
}
