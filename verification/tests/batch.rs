use wikipath::batch::{Flush, IncomingLinkBatch, LinkInserter, DEFAULT_MEMORY_LIMIT};
use wikipath::database::{Database, MAP_SIZE};
use wikipath::error::Error;
use wikipath::metadata::Metadata;

fn empty() -> Database {
    Database::new(Metadata { language_code: "en".to_string(), date_code: "20240501".to_string() })
}

#[test]
fn a_batch_keeps_links_by_their_target() {
    let mut batch = IncomingLinkBatch::new();
    assert_eq!(batch.size(), 0);
    batch.insert(1, 9);
    batch.insert(2, 9);
    batch.insert(1, 8);
    batch.insert(1, 9);
    assert_eq!(batch.size(), 4);
    let mut entries = batch.drain();
    entries.sort();
    assert_eq!(entries, vec![(8, vec![1]), (9, vec![1, 2, 1])]);
    assert_eq!(batch.size(), 0);
    assert_eq!(batch.drain(), vec![]);
}

#[test]
fn an_inserter_cannot_start_above_the_limit() {
    assert!(matches!(LinkInserter::begin(100, 101), Err(Error::ResourceExhausted)));
    assert!(LinkInserter::begin(100, 100).is_ok());
    assert!(LinkInserter::begin(0, 0).is_ok());
}

#[test]
fn what_is_given_up_when_memory_runs_short() {
    let inserter = LinkInserter::begin(100, 0).unwrap();
    assert_eq!(inserter.next_flush(100, Flush::Nothing), Flush::Nothing);
    assert_eq!(inserter.next_flush(50, Flush::Incoming), Flush::Nothing);
    assert_eq!(inserter.next_flush(101, Flush::Nothing), Flush::Incoming);
    assert_eq!(inserter.next_flush(101, Flush::Incoming), Flush::Outgoing);
    assert_eq!(inserter.next_flush(101, Flush::Outgoing), Flush::Nothing);
}

#[test]
fn flushes_under_a_low_limit_fill_both_tables_alike() {
    let mut db = empty();
    let mut inserter = LinkInserter::begin(1000, 0).unwrap();
    let mut incoming_flushes = 0;
    let mut edges = 0u64;
    for source in 0..300u32 {
        for step in 1..=7u32 {
            let target = (source * 37 + step * 11) % 300;
            if target == source {
                continue;
            }
            inserter.insert(source, target);
            edges += 1;
        }
        // The memory in use grows with the links that the batches hold.
        let used = 10 * inserter.incoming.size() as u64;
        let mut flushed = Flush::Nothing;
        loop {
            flushed = inserter.next_flush(used, flushed);
            match flushed {
                Flush::Incoming => {
                    inserter.flush_incoming(&mut db);
                    incoming_flushes += 1;
                }
                Flush::Outgoing => inserter.flush_outgoing(&mut db),
                Flush::Nothing => break,
            }
        }
    }
    assert!(incoming_flushes >= 3);
    assert_eq!(inserter.flush_and_commit(&mut db), Ok(edges));
    assert_eq!(db.check_integrity(), Ok(()));
    let stored: usize = db.incoming.values().map(|sources| sources.len()).sum();
    assert_eq!(stored as u64, edges);
    for (target, sources) in &db.incoming {
        for source in sources {
            assert!(db.outgoing[source].contains(target));
        }
    }
}

#[test]
fn tables_that_were_given_different_numbers_of_links() {
    let mut inserter = LinkInserter::begin(10, 0).unwrap();
    inserter.insert(1, 2);
    assert_eq!(inserter.finish(), Err(Error::IntegrityViolation));
    inserter.take_incoming();
    assert_eq!(inserter.finish(), Err(Error::IntegrityViolation));
    inserter.take_outgoing();
    assert_eq!(inserter.finish(), Ok(1));
}

#[test]
fn the_limit_where_none_is_chosen() {
    assert_eq!(DEFAULT_MEMORY_LIMIT, 12 * 1024 * 1024 * 1024);
    assert_eq!(MAP_SIZE, 32 * 1024 * 1024 * 1024);
}
