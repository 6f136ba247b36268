use solver::AdjacentsLookup;

#[test]
fn corner_lists_of_a_three_by_three_grid() {
    let lookup = AdjacentsLookup::new(3, 3);
    let expected: Vec<Vec<usize>> = vec![
        vec![4],
        vec![3, 5],
        vec![4],
        vec![1, 7],
        vec![0, 2, 6, 8],
        vec![1, 7],
        vec![4],
        vec![3, 5],
        vec![4],
    ];
    assert_eq!(lookup.adjacents, expected);
    assert_eq!(lookup.counts, vec![0; 9]);
}

#[test]
fn corner_lists_of_a_wide_grid() {
    let lookup = AdjacentsLookup::new(2, 4);
    assert_eq!(lookup.adjacents[0], vec![5]);
    assert_eq!(lookup.adjacents[1], vec![4, 6]);
    assert_eq!(lookup.adjacents[3], vec![6]);
    assert_eq!(lookup.adjacents[4], vec![1]);
    assert_eq!(lookup.adjacents[6], vec![1, 3]);
    assert_eq!(lookup.adjacents.len(), 8);
}

#[test]
fn single_row_and_single_cell_have_no_corners() {
    let row = AdjacentsLookup::new(1, 5);
    assert!(row.adjacents.iter().all(|near| near.is_empty()));
    let cell = AdjacentsLookup::new(1, 1);
    assert_eq!(cell.adjacents, vec![Vec::<usize>::new()]);
    let none = AdjacentsLookup::new(0, 3);
    assert!(none.adjacents.is_empty());
    assert!(none.counts.is_empty());
}

#[test]
fn commit_raises_the_corner_counters() {
    let mut lookup = AdjacentsLookup::new(3, 3);
    lookup.commit(4);
    assert_eq!(lookup.counts, vec![1, 0, 1, 0, 0, 0, 1, 0, 1]);
    lookup.commit(0);
    assert_eq!(lookup.counts, vec![1, 0, 1, 0, 1, 0, 1, 0, 1]);
    lookup.commit(8);
    assert_eq!(lookup.counts, vec![1, 0, 1, 0, 2, 0, 1, 0, 1]);
}

#[test]
fn uncommit_undoes_commit() {
    let mut lookup = AdjacentsLookup::new(4, 4);
    lookup.commit(5);
    lookup.commit(15);
    assert_eq!(lookup.counts, vec![1, 0, 1, 0, 0, 0, 0, 0, 1, 0, 2, 0, 0, 0, 0, 0]);
    lookup.uncommit(5);
    assert_eq!(lookup.counts, vec![0, 0, 0, 0, 0, 0, 0, 0, 0, 0, 1, 0, 0, 0, 0, 0]);
    lookup.uncommit(15);
    assert_eq!(lookup.counts, vec![0; 16]);
}
