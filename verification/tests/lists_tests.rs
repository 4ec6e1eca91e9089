use astar_grid::lists::{all_below, contains_index, discard_endpoints};

#[test]
fn contains_index_finds_what_is_there() {
    let list = vec![4, 7, 7, 1];
    assert!(contains_index(&list, 4));
    assert!(contains_index(&list, 7));
    assert!(contains_index(&list, 1));
    assert!(!contains_index(&list, 0));
    assert!(!contains_index(&list, 5));
    assert!(!contains_index(&vec![], 0));
}

#[test]
fn all_below_looks_at_every_index() {
    assert!(all_below(&vec![0, 3, 8], 9));
    assert!(!all_below(&vec![0, 9, 8], 9));
    assert!(!all_below(&vec![0, 3, 9], 9));
    assert!(all_below(&vec![], 0));
    assert!(!all_below(&vec![0], 0));
}

#[test]
fn discard_endpoints_keeps_the_rest_in_order() {
    assert_eq!(discard_endpoints(&vec![5, 0, 3, 8, 3, 0, 7], 0, 8), vec![5, 3, 3, 7]);
    assert_eq!(discard_endpoints(&vec![0, 8, 8, 0], 0, 8), vec![]);
    assert_eq!(discard_endpoints(&vec![1, 2, 3], 0, 8), vec![1, 2, 3]);
    assert_eq!(discard_endpoints(&vec![], 0, 8), vec![]);
}
