use wikipath::adjacency::{is_strictly_ascending, merge_links, merge_unique, normalize};

#[test]
fn normalizing_sorts_and_drops_duplicates() {
    assert_eq!(normalize(vec![5, 1, 3, 1, 5, 2]), vec![1, 2, 3, 5]);
    assert_eq!(normalize(vec![]), Vec::<u32>::new());
    assert_eq!(normalize(vec![7]), vec![7]);
    assert_eq!(normalize(vec![u32::MAX, 0, u32::MAX]), vec![0, u32::MAX]);
}

#[test]
fn merging_keeps_each_page_once() {
    assert_eq!(merge_links(&vec![1, 4, 9], &vec![9, 2, 4, 10]), vec![1, 2, 4, 9, 10]);
    assert_eq!(merge_links(&vec![], &vec![3, 3]), vec![3]);
    assert_eq!(merge_links(&vec![2], &vec![]), vec![2]);
}

#[test]
fn merging_two_lists_at_rest() {
    assert_eq!(merge_unique(&vec![1, 3, 5], &vec![2, 3, 4, 9]), vec![1, 2, 3, 4, 5, 9]);
    assert_eq!(merge_unique(&vec![], &vec![2]), vec![2]);
    assert_eq!(merge_unique(&vec![2], &vec![]), vec![2]);
    assert_eq!(merge_unique(&vec![], &vec![]), Vec::<u32>::new());
    assert_eq!(merge_unique(&vec![7], &vec![7]), vec![7]);
}

#[test]
fn normalizing_a_long_list() {
    let list: Vec<u32> = (0..10_000u32).map(|i| (i * 7919) % 1000).collect();
    let expected: Vec<u32> = (0..1000).collect();
    assert_eq!(normalize(list), expected);
    let descending: Vec<u32> = (0..5000).rev().collect();
    let ascending: Vec<u32> = (0..5000).collect();
    assert_eq!(normalize(descending), ascending);
}

#[test]
fn telling_a_list_at_rest() {
    assert!(is_strictly_ascending(&vec![]));
    assert!(is_strictly_ascending(&vec![4]));
    assert!(is_strictly_ascending(&vec![1, 2, 9]));
    assert!(!is_strictly_ascending(&vec![1, 1]));
    assert!(!is_strictly_ascending(&vec![2, 1]));
    assert!(!is_strictly_ascending(&vec![1, 3, 2]));
}
