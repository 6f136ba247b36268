use solver::sorting::{sort_by_score, sort_indices};

#[test]
fn indices_are_sorted_ascending() {
    let mut list: Vec<usize> = vec![3, 1, 2];
    sort_indices(&mut list);
    assert_eq!(list, vec![1, 2, 3]);
    let mut list: Vec<usize> = vec![9, 7, 7, 0, 12, 4];
    sort_indices(&mut list);
    assert_eq!(list, vec![0, 4, 7, 7, 9, 12]);
}

#[test]
fn short_lists_are_sorted() {
    let mut list: Vec<usize> = vec![];
    sort_indices(&mut list);
    assert_eq!(list, Vec::<usize>::new());
    let mut list: Vec<usize> = vec![5];
    sort_indices(&mut list);
    assert_eq!(list, vec![5]);
}

#[test]
fn cells_are_sorted_by_score_then_index() {
    let scores: Vec<usize> = vec![2, 1, 2, 1];
    let mut list: Vec<usize> = vec![0, 1, 2, 3];
    sort_by_score(&mut list, &scores);
    assert_eq!(list, vec![1, 3, 0, 2]);
    let mut list: Vec<usize> = vec![3, 2, 1, 0];
    sort_by_score(&mut list, &scores);
    assert_eq!(list, vec![1, 3, 0, 2]);
}

#[test]
fn score_sort_leaves_other_cells_out() {
    let scores: Vec<usize> = vec![5, 0, 3, 3, 1];
    let mut list: Vec<usize> = vec![0, 2, 3];
    sort_by_score(&mut list, &scores);
    assert_eq!(list, vec![2, 3, 0]);
}
