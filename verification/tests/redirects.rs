use std::collections::HashMap;
use wikipath::redirects::{cleanup_redirects, resolve};

fn map(pairs: &[(u32, u32)]) -> HashMap<u32, u32> {
    pairs.iter().copied().collect()
}

#[test]
fn chains_collapse_and_circles_are_dropped() {
    let raw = map(&[(1, 2), (2, 3), (3, 4), (5, 5), (6, 7), (7, 6)]);
    let clean = cleanup_redirects(raw);
    assert_eq!(clean, map(&[(1, 4), (2, 4), (3, 4)]));
    assert!(!clean.contains_key(&5));
    assert!(!clean.contains_key(&6));
    assert!(!clean.contains_key(&7));
}

#[test]
fn a_redirect_to_itself_is_dropped() {
    assert_eq!(cleanup_redirects(map(&[(5, 5)])), map(&[]));
    assert_eq!(cleanup_redirects(map(&[(5, 5), (1, 2)])), map(&[(1, 2)]));
}

#[test]
fn a_circle_of_any_length_is_dropped() {
    assert_eq!(cleanup_redirects(map(&[(6, 7), (7, 6)])), map(&[]));
    assert_eq!(cleanup_redirects(map(&[(1, 2), (2, 3), (3, 1)])), map(&[]));
    assert_eq!(cleanup_redirects(map(&[(1, 2), (2, 3), (3, 4), (4, 1)])), map(&[]));
    assert_eq!(cleanup_redirects(map(&[(1, 2), (2, 3), (3, 4), (4, 5), (5, 1)])), map(&[]));
}

#[test]
fn a_chain_into_a_page_that_redirects_to_itself_ends_there() {
    assert_eq!(cleanup_redirects(map(&[(1, 2), (2, 2)])), map(&[(1, 2)]));
    assert_eq!(cleanup_redirects(map(&[(1, 2), (2, 3), (3, 3)])), map(&[(1, 3), (2, 3)]));
}

#[test]
fn a_chain_into_a_circle_ends_on_the_circle() {
    // From 1 the chain is on the circle of 6 and 7 after one hop; two hops,
    // a multiple of the length of the circle, lead to 7.
    assert_eq!(cleanup_redirects(map(&[(1, 6), (6, 7), (7, 6)])), map(&[(1, 7)]));
    assert_eq!(cleanup_redirects(map(&[(1, 7), (6, 7), (7, 6)])), map(&[(1, 6)]));
    // A circle of three: from 9 three hops lead to 3.
    assert_eq!(cleanup_redirects(map(&[(9, 1), (1, 2), (2, 3), (3, 1)])), map(&[(9, 3)]));
    // From 8 the chain is on the circle after two hops; three hops lead to 2.
    assert_eq!(
        cleanup_redirects(map(&[(8, 9), (9, 1), (1, 2), (2, 3), (3, 1)])),
        map(&[(8, 2), (9, 3)])
    );
}

#[test]
fn cleaning_twice_changes_nothing() {
    let inputs = [
        map(&[(1, 2), (2, 3), (3, 4), (5, 5), (6, 7), (7, 6)]),
        map(&[(1, 6), (6, 7), (7, 6), (8, 1)]),
        map(&[(10, 20), (30, 20), (40, 30)]),
        map(&[]),
    ];
    for raw in inputs {
        let once = cleanup_redirects(raw);
        let twice = cleanup_redirects(once.clone());
        assert_eq!(twice, once);
    }
}

#[test]
fn no_clean_redirect_leads_to_a_redirect() {
    let clean = cleanup_redirects(map(&[(1, 2), (2, 3), (3, 4), (8, 1), (9, 8), (20, 21)]));
    assert_eq!(clean.len(), 6);
    for target in clean.values() {
        assert!(!clean.contains_key(target));
    }
    assert_eq!(clean[&9], 4);
    assert_eq!(clean[&20], 21);
}

#[test]
fn resolving_one_page() {
    let raw = map(&[(1, 2), (2, 3), (5, 5), (6, 7), (7, 6)]);
    assert_eq!(resolve(&raw, 1), Some(3));
    assert_eq!(resolve(&raw, 2), Some(3));
    assert_eq!(resolve(&raw, 5), None);
    assert_eq!(resolve(&raw, 6), None);
}
