use solver::NoGoods;

#[test]
fn empty_cache_answers_no() {
    let cache = NoGoods::new();
    assert!(!cache.search(vec![1, 2]));
    assert!(!cache.search(vec![]));
}

#[test]
fn recorded_set_is_found_in_any_order() {
    let mut cache = NoGoods::new();
    cache.insert(vec![3, 1]);
    assert!(cache.search(vec![1, 3]));
    assert!(cache.search(vec![3, 1]));
}

#[test]
fn recorded_set_is_found_below_larger_cells() {
    let mut cache = NoGoods::new();
    cache.insert(vec![3, 1]);
    assert!(cache.search(vec![5, 3, 1]));
    assert!(cache.search(vec![1, 3, 5, 8]));
}

#[test]
fn recorded_set_is_missed_above_a_smaller_cell() {
    let mut cache = NoGoods::new();
    cache.insert(vec![3, 1]);
    // The recorded cells are all there, but 0 comes first in ascending order.
    assert!(!cache.search(vec![0, 1, 3]));
    // A cell between the recorded ones breaks the path too.
    assert!(!cache.search(vec![1, 2, 3]));
}

#[test]
fn part_of_a_recorded_set_is_not_found() {
    let mut cache = NoGoods::new();
    cache.insert(vec![1, 3]);
    assert!(!cache.search(vec![1]));
    assert!(!cache.search(vec![3]));
    assert!(!cache.search(vec![1, 4]));
}

#[test]
fn empty_recorded_set_is_never_found() {
    let mut cache = NoGoods::new();
    cache.insert(vec![]);
    assert!(!cache.search(vec![]));
    assert!(!cache.search(vec![4]));
}

#[test]
fn shorter_recorded_set_wins_first() {
    let mut cache = NoGoods::new();
    cache.insert(vec![2, 7, 9]);
    assert!(!cache.search(vec![2, 7]));
    cache.insert(vec![2]);
    assert!(cache.search(vec![2, 7]));
    assert!(cache.search(vec![9, 2]));
    assert!(!cache.search(vec![1, 2]));
    assert!(cache.search(vec![9, 7, 2]));
}

#[test]
fn cache_keeps_what_it_held() {
    let mut cache = NoGoods::new();
    cache.insert(vec![4, 0]);
    cache.insert(vec![0, 5]);
    cache.insert(vec![6]);
    assert!(cache.search(vec![0, 4]));
    assert!(cache.search(vec![5, 0]));
    assert!(cache.search(vec![6, 7]));
    assert!(!cache.search(vec![0, 6]));
    assert!(cache.root.children.contains_key(&0));
    assert!(!cache.root.children.contains_key(&4));
}
