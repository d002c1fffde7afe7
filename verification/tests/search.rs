use std::collections::{HashMap, HashSet};
use wikipath::database::Database;
use wikipath::metadata::Metadata;
use wikipath::search::{Meeting, Paths};

fn database(redirects: &[(u32, u32)], links: &[(u32, u32)]) -> Database {
    let mut incoming: HashMap<u32, Vec<u32>> = HashMap::new();
    let mut outgoing: HashMap<u32, Vec<u32>> = HashMap::new();
    for &(source, target) in links {
        outgoing.entry(source).or_default().push(target);
        incoming.entry(target).or_default().push(source);
    }
    for list in incoming.values_mut().chain(outgoing.values_mut()) {
        list.sort_unstable();
        list.dedup();
    }
    Database {
        metadata: Metadata { language_code: "en".to_string(), date_code: "20240501".to_string() },
        redirects: redirects.iter().copied().collect(),
        incoming,
        outgoing,
    }
}

fn links_of(paths: &Paths) -> Vec<(u32, Vec<u32>)> {
    let mut all: Vec<(u32, Vec<u32>)> = paths
        .links
        .iter()
        .map(|(source, targets)| {
            let mut targets: Vec<u32> = targets.iter().copied().collect();
            targets.sort_unstable();
            (*source, targets)
        })
        .collect();
    all.sort();
    all
}

#[test]
fn direct_link() {
    let db = database(&[], &[(1, 2)]);
    let paths = db.get_shortest_paths(1, 2);
    assert_eq!(paths.length, 1);
    assert_eq!(paths.count, 1);
    assert_eq!(links_of(&paths), vec![(1, vec![2])]);
    assert_eq!(paths.source, 1);
    assert_eq!(paths.target, 2);
    assert!(!paths.source_is_redirect);
    assert!(!paths.target_is_redirect);
    assert_eq!(paths.language_code, "en");
    assert_eq!(paths.date_code, "20240501");
}

#[test]
fn diamond() {
    let db = database(&[], &[(1, 2), (1, 3), (2, 4), (3, 4)]);
    let paths = db.get_shortest_paths(1, 4);
    assert_eq!(paths.length, 2);
    assert_eq!(paths.count, 2);
    assert_eq!(links_of(&paths), vec![(1, vec![2, 3]), (2, vec![4]), (3, vec![4])]);
}

#[test]
fn redirect_at_the_source() {
    let db = database(&[(1, 2)], &[(2, 3)]);
    let paths = db.get_shortest_paths(1, 3);
    assert_eq!(paths.source, 2);
    assert!(paths.source_is_redirect);
    assert_eq!(paths.target, 3);
    assert!(!paths.target_is_redirect);
    assert_eq!(paths.length, 1);
    assert_eq!(paths.count, 1);
    assert_eq!(links_of(&paths), vec![(2, vec![3])]);
}

#[test]
fn redirect_at_the_target() {
    let db = database(&[(9, 3)], &[(2, 3)]);
    let paths = db.get_shortest_paths(2, 9);
    assert_eq!(paths.target, 3);
    assert!(paths.target_is_redirect);
    assert_eq!(paths.length, 1);
    assert_eq!(paths.count, 1);
}

#[test]
fn no_path() {
    let db = database(&[], &[(1, 2)]);
    let paths = db.get_shortest_paths(1, 3);
    assert_eq!(paths.length, 0);
    assert_eq!(paths.count, 0);
    assert!(paths.links.is_empty());
}

#[test]
fn no_path_against_the_links() {
    let db = database(&[], &[(1, 2), (2, 3)]);
    let paths = db.get_shortest_paths(3, 1);
    assert_eq!(paths.length, 0);
    assert_eq!(paths.count, 0);
    assert!(paths.links.is_empty());
}

#[test]
fn a_page_to_itself() {
    let db = database(&[], &[(1, 2), (2, 1)]);
    let paths = db.get_shortest_paths(1, 1);
    assert_eq!(paths.length, 0);
    assert_eq!(paths.count, 1);
    assert!(paths.links.is_empty());
}

#[test]
fn a_page_without_links_to_itself() {
    let db = database(&[], &[(1, 2)]);
    let paths = db.get_shortest_paths(7, 7);
    assert_eq!(paths.length, 0);
    assert_eq!(paths.count, 1);
    assert!(paths.links.is_empty());
}

#[test]
fn longer_walks_are_left_out() {
    // 1 -> 2 -> 5 is shortest; 1 -> 3 -> 4 -> 5 is longer.
    let db = database(&[], &[(1, 2), (2, 5), (1, 3), (3, 4), (4, 5)]);
    let paths = db.get_shortest_paths(1, 5);
    assert_eq!(paths.length, 2);
    assert_eq!(paths.count, 1);
    assert_eq!(links_of(&paths), vec![(1, vec![2]), (2, vec![5])]);
}

#[test]
fn paths_multiply_through_layers() {
    // Three layers of two pages each between 1 and 8: 2 * 2 * 2 paths.
    let db = database(
        &[],
        &[
            (1, 2),
            (1, 3),
            (2, 4),
            (2, 5),
            (3, 4),
            (3, 5),
            (4, 6),
            (4, 7),
            (5, 6),
            (5, 7),
            (6, 8),
            (7, 8),
        ],
    );
    let paths = db.get_shortest_paths(1, 8);
    assert_eq!(paths.length, 4);
    assert_eq!(paths.count, 8);
    let links = links_of(&paths);
    assert_eq!(links.len(), 7);
    let total: usize = links.iter().map(|(_, targets)| targets.len()).sum();
    assert_eq!(total, 12);
}

#[test]
fn every_link_of_the_result_is_a_link_of_the_database() {
    let edges = [(1, 2), (1, 3), (2, 4), (3, 4), (4, 5), (2, 5), (5, 1)];
    let db = database(&[], &edges);
    let all: HashSet<(u32, u32)> = edges.iter().copied().collect();
    for source in 1..=5 {
        for target in 1..=5 {
            let paths = db.get_shortest_paths(source, target);
            for (from, targets) in &paths.links {
                for to in targets {
                    assert!(all.contains(&(*from, *to)));
                }
            }
            if source != target {
                assert_eq!(paths.length > 0, paths.count > 0);
            } else {
                assert_eq!((paths.length, paths.count), (0, 1));
            }
        }
    }
}

/// Searches level by level, handing each level the lists of its queue only.
fn search_by_levels(db: &Database, source: u32, target: u32) -> (Paths, usize) {
    let mut meeting = Meeting::begin(source, target);
    let mut lists_read = 0;
    while !meeting.is_done() {
        let (along, queue) = meeting.wanted();
        let table = if along { &db.outgoing } else { &db.incoming };
        let mut lists: HashMap<u32, Vec<u32>> = HashMap::new();
        for page in queue {
            if let Some(list) = table.get(page) {
                lists.insert(*page, list.clone());
                lists_read += 1;
            }
        }
        meeting.advance(&lists);
    }
    let paths =
        meeting.into_paths(source, false, target, false, "en".to_string(), "20240501".to_string());
    (paths, lists_read)
}

#[test]
fn a_search_level_by_level_gives_what_the_search_of_the_tables_gives() {
    let db = database(
        &[],
        &[(1, 2), (1, 3), (2, 4), (3, 4), (4, 5), (5, 6), (2, 6), (6, 1), (7, 8), (9, 1)],
    );
    for source in 1..=9 {
        for target in 1..=9 {
            let whole = db.get_shortest_paths(source, target);
            let (stepped, _) = search_by_levels(&db, source, target);
            assert_eq!((stepped.length, stepped.count), (whole.length, whole.count));
            assert_eq!(links_of(&stepped), links_of(&whole), "{source} to {target}");
        }
    }
}

#[test]
fn the_levels_of_a_search() {
    let db = database(&[], &[(1, 2), (2, 3), (3, 4), (1, 5), (5, 4)]);
    let mut meeting = Meeting::begin(1, 4);
    assert!(!meeting.is_done());
    assert_eq!((meeting.forward_depth, meeting.backward_depth), (0, 0));
    // The queues are as long: the side of the target goes first.
    let (along, queue) = meeting.wanted();
    assert!(!along);
    assert_eq!(queue, &vec![4]);
    meeting.advance(&db.incoming);
    assert_eq!((meeting.forward_depth, meeting.backward_depth), (0, 1));
    let mut reached = meeting.backward_queue.clone();
    reached.sort_unstable();
    assert_eq!(reached, vec![3, 5]);
    assert!(!meeting.is_done());
    // Now the queue of the source is the shorter.
    let (along, queue) = meeting.wanted();
    assert!(along);
    assert_eq!(queue, &vec![1]);
    meeting.advance(&db.outgoing);
    assert_eq!((meeting.forward_depth, meeting.backward_depth), (1, 1));
    assert!(meeting.is_done());
    assert_eq!(meeting.pages, vec![5]);
    let paths = meeting.into_paths(1, false, 4, false, String::new(), String::new());
    assert_eq!((paths.length, paths.count), (2, 1));
    assert_eq!(links_of(&paths), vec![(1, vec![5]), (5, vec![4])]);
}

#[test]
fn a_search_reads_the_lists_of_its_queues_only() {
    // A long chain behind the target is never read.
    let mut links: Vec<(u32, u32)> = vec![(1, 2), (2, 3)];
    for page in 3..200 {
        links.push((page, page + 1));
    }
    let db = database(&[], &links);
    let (paths, lists_read) = search_by_levels(&db, 1, 3);
    assert_eq!((paths.length, paths.count), (2, 1));
    assert!(lists_read <= 3);
}

#[test]
fn a_search_between_a_page_and_itself_has_no_level() {
    let meeting = Meeting::begin(7, 7);
    assert!(meeting.is_done());
    let paths = meeting.into_paths(7, true, 7, false, "de".to_string(), "1".to_string());
    assert_eq!((paths.length, paths.count), (0, 1));
    assert!(paths.links.is_empty());
    assert!(paths.source_is_redirect && !paths.target_is_redirect);
    assert_eq!((paths.language_code.as_str(), paths.date_code.as_str()), ("de", "1"));
}
