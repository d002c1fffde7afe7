use std::collections::{HashMap, HashSet};
use wikipath::extract::{add_link, count_paths};

fn table(entries: &[(u32, &[u32])]) -> HashMap<u32, Vec<u32>> {
    entries.iter().map(|(key, list)| (*key, list.to_vec())).collect()
}

fn pairs(links: &HashMap<u32, HashSet<u32>>) -> Vec<(u32, u32)> {
    let mut all: Vec<(u32, u32)> =
        links.iter().flat_map(|(from, to)| to.iter().map(|to| (*from, *to))).collect();
    all.sort_unstable();
    all
}

#[test]
fn from_a_page_to_itself_there_is_one_walk() {
    let edges = table(&[]);
    let mut memory = HashMap::new();
    let mut links = HashMap::new();
    assert_eq!(count_paths(3, 3, &edges, &mut memory, &mut links, false), 1);
    assert!(memory.is_empty());
    assert!(links.is_empty());
}

#[test]
fn the_walks_of_a_diamond() {
    // The page at which the walks end has no list of its own.
    let edges = table(&[(4, &[2, 3]), (2, &[1]), (3, &[1])]);
    let mut memory = HashMap::new();
    let mut links = HashMap::new();
    assert_eq!(count_paths(4, 1, &edges, &mut memory, &mut links, false), 2);
    assert_eq!(pairs(&links), vec![(2, 1), (3, 1), (4, 2), (4, 3)]);
    assert_eq!(memory[&2], 1);
    assert_eq!(memory[&3], 1);
    assert_eq!(memory[&1], 1);
    assert_eq!(memory.len(), 3);
}

#[test]
fn links_of_a_table_of_predecessors_lead_the_other_way() {
    let edges = table(&[(4, &[2, 3]), (2, &[1]), (3, &[1])]);
    let mut memory = HashMap::new();
    let mut links = HashMap::new();
    assert_eq!(count_paths(4, 1, &edges, &mut memory, &mut links, true), 2);
    assert_eq!(pairs(&links), vec![(1, 2), (1, 3), (2, 4), (3, 4)]);
}

#[test]
fn walks_multiply_through_layers_of_a_table() {
    // Three layers of three pages between 100 and 0: 27 walks.
    let edges = table(&[
        (100, &[31, 32, 33]),
        (31, &[21, 22, 23]),
        (32, &[21, 22, 23]),
        (33, &[21, 22, 23]),
        (21, &[11, 12, 13]),
        (22, &[11, 12, 13]),
        (23, &[11, 12, 13]),
        (11, &[0]),
        (12, &[0]),
        (13, &[0]),
    ]);
    let mut memory = HashMap::new();
    let mut links = HashMap::new();
    assert_eq!(count_paths(100, 0, &edges, &mut memory, &mut links, false), 27);
    assert_eq!(memory[&31], 9);
    assert_eq!(memory[&21], 3);
    assert_eq!(memory[&11], 1);
    assert_eq!(pairs(&links).len(), 3 + 9 + 9 + 3);
    // A second walk from another page uses what is kept: nothing changes
    // but what is new.
    let before = memory.clone();
    assert_eq!(count_paths(32, 0, &edges, &mut memory, &mut links, false), 9);
    assert_eq!(memory, before);
    assert_eq!(pairs(&links).len(), 24);
}

#[test]
fn a_page_that_is_kept_is_not_walked_from_again() {
    let edges = table(&[(4, &[2, 3]), (2, &[1]), (3, &[1])]);
    let mut memory: HashMap<u32, u32> = [(2, 1)].into_iter().collect();
    let mut links = HashMap::new();
    assert_eq!(count_paths(4, 1, &edges, &mut memory, &mut links, false), 2);
    assert_eq!(pairs(&links), vec![(3, 1), (4, 2), (4, 3)]);
    assert_eq!(memory[&2], 1);
    assert_eq!(memory[&3], 1);
}

#[test]
fn counts_that_do_not_fit_are_the_greatest_count() {
    // 33 layers of two pages each: 2^33 walks.
    let mut entries: Vec<(u32, Vec<u32>)> = Vec::new();
    entries.push((1000, vec![1, 2]));
    for layer in 0..32u32 {
        let next = vec![10 * (layer + 1) + 1, 10 * (layer + 1) + 2];
        let (a, b) = if layer == 0 { (1, 2) } else { (10 * layer + 1, 10 * layer + 2) };
        entries.push((a, next.clone()));
        entries.push((b, next));
    }
    entries.push((321, vec![0]));
    entries.push((322, vec![0]));
    let edges: HashMap<u32, Vec<u32>> = entries.into_iter().collect();
    let mut memory = HashMap::new();
    let mut links = HashMap::new();
    assert_eq!(count_paths(1000, 0, &edges, &mut memory, &mut links, false), u32::MAX);
}

#[test]
fn a_link_is_kept_once() {
    let mut links = HashMap::new();
    add_link(&mut links, 1, 2);
    add_link(&mut links, 1, 2);
    add_link(&mut links, 1, 3);
    assert_eq!(pairs(&links), vec![(1, 2), (1, 3)]);
}
