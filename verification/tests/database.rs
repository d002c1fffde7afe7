use std::collections::HashMap;
use wikipath::database::{put_if_absent, transpose, Database};
use wikipath::error::Error;
use wikipath::metadata::Metadata;

fn empty() -> Database {
    Database::new(Metadata { language_code: "en".to_string(), date_code: "20240501".to_string() })
}

#[test]
fn a_new_database_is_empty() {
    let db = empty();
    assert_eq!(db.get_redirect(1), None);
    assert_eq!(db.get_incoming_links(1), Vec::<u32>::new());
    assert_eq!(db.get_outgoing_links(1), Vec::<u32>::new());
    assert_eq!(db.check_integrity(), Ok(()));
}

#[test]
fn a_page_redirects_once() {
    let mut db = empty();
    assert_eq!(db.insert_redirect(1, 2), Ok(()));
    assert_eq!(db.insert_redirect(3, 2), Ok(()));
    assert_eq!(db.insert_redirect(1, 4), Err(Error::IntegrityViolation));
    assert_eq!(db.get_redirect(1), Some(2));
    assert_eq!(db.get_redirect(3), Some(2));
    assert_eq!(db.get_redirect(2), None);
}

#[test]
fn incoming_links_are_kept_sorted_and_once() {
    let mut db = empty();
    assert!(!db.insert_links_incoming(9, vec![5, 1, 5, 3]));
    assert_eq!(db.get_incoming_links(9), vec![1, 3, 5]);
    assert!(db.insert_links_incoming(9, vec![4, 1, 0]));
    assert_eq!(db.get_incoming_links(9), vec![0, 1, 3, 4, 5]);
    assert!(!db.insert_links_outgoing(1, vec![9, 9, 2]));
    assert_eq!(db.get_outgoing_links(1), vec![2, 9]);
}

#[test]
fn the_outgoing_table_is_the_incoming_table_turned_round() {
    let mut db = empty();
    db.insert_links_incoming(4, vec![3, 2]);
    db.insert_links_incoming(2, vec![1]);
    db.insert_links_incoming(3, vec![1]);
    db.insert_links_outgoing(77, vec![78]);
    db.generate_outgoing_table();
    assert_eq!(db.get_outgoing_links(1), vec![2, 3]);
    assert_eq!(db.get_outgoing_links(2), vec![4]);
    assert_eq!(db.get_outgoing_links(3), vec![4]);
    assert_eq!(db.get_outgoing_links(4), Vec::<u32>::new());
    assert_eq!(db.get_outgoing_links(77), Vec::<u32>::new());
    assert_eq!(db.check_integrity(), Ok(()));
    for (target, sources) in &db.incoming {
        for source in sources {
            assert!(db.outgoing[source].contains(target));
        }
    }
    for (source, targets) in &db.outgoing {
        for target in targets {
            assert!(db.incoming[target].contains(source));
        }
    }
}

#[test]
fn turning_a_table_round() {
    let table: HashMap<u32, Vec<u32>> = [(1, vec![3, 2]), (2, vec![3])].into_iter().collect();
    let expected: HashMap<u32, Vec<u32>> = [(2, vec![1]), (3, vec![1, 2])].into_iter().collect();
    assert_eq!(transpose(&table), expected);
}

#[test]
fn what_is_not_as_it_must_be_is_found() {
    let mut unsorted = empty();
    unsorted.incoming.insert(2, vec![3, 1]);
    unsorted.outgoing.insert(1, vec![2]);
    unsorted.outgoing.insert(3, vec![2]);
    assert_eq!(unsorted.check_integrity(), Err(Error::IntegrityViolation));

    let mut one_sided = empty();
    one_sided.incoming.insert(2, vec![1]);
    assert_eq!(one_sided.check_integrity(), Err(Error::IntegrityViolation));

    let mut redirecting = empty();
    redirecting.incoming.insert(2, vec![1]);
    redirecting.outgoing.insert(1, vec![2]);
    assert_eq!(redirecting.check_integrity(), Ok(()));
    redirecting.redirects.insert(1, 5);
    assert_eq!(redirecting.check_integrity(), Err(Error::IntegrityViolation));

    let mut chained = empty();
    chained.redirects.insert(1, 2);
    chained.redirects.insert(2, 3);
    assert_eq!(chained.check_integrity(), Err(Error::IntegrityViolation));
}

#[test]
fn a_redirect_is_written_where_there_is_none() {
    assert_eq!(put_if_absent(None, 7), Ok(7));
    assert_eq!(put_if_absent(Some(3), 7), Err(Error::IntegrityViolation));
    assert_eq!(put_if_absent(Some(7), 7), Err(Error::IntegrityViolation));
}
