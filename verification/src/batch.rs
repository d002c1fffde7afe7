//! Links on their way into the database: a batch of links by the page that
//! they lead to, and the inserter that holds one batch for each of the two
//! adjacency tables and gives them up when memory runs short.

use crate::database::{list_of, no_empty_list, Database};
use crate::error::Error;
use crate::frontier::lemma_push_contains;
use crate::graph::{graph_of, reversed};
use crate::redirects::keys_of;
use std::collections::HashMap;
use vstd::prelude::*;
use vstd::std_specs::hash::*;

verus! {

broadcast use vstd::std_specs::hash::group_hash_axioms;

/// A batch of links, each kept with the page that it leads to.
#[derive(Debug)]
pub struct IncomingLinkBatch {
    /// The number of links put in since the batch was last drained.
    pub size: usize,
    /// For a page, the pages of the links that lead to it, in the order in
    /// which they came.
    pub incoming: HashMap<u32, Vec<u32>>,
}

/// One more than `n`, as far as it fits.
pub open spec fn bumped(n: usize) -> usize {
    if n < usize::MAX {
        (n + 1) as usize
    } else {
        n
    }
}

/// `entries` holds what `lists` holds: each key once, with its list.
pub open spec fn entries_of(entries: Seq<(u32, Vec<u32>)>, lists: Map<u32, Vec<u32>>) -> bool {
    &&& forall|i: int, j: int|
        0 <= i < j < entries.len() ==> (#[trigger] entries[i]).0 != (#[trigger] entries[j]).0
    &&& forall|i: int|
        0 <= i < entries.len() ==> lists.contains_key((#[trigger] entries[i]).0) && lists[entries[i].0]
            == entries[i].1
    &&& forall|k: u32| #[trigger]
        lists.contains_key(k) ==> exists|i: int| 0 <= i < entries.len() && entries[i].0 == k
}

impl IncomingLinkBatch {
    /// The links of the batch, as edges from the page that a link leads to,
    /// to the page that it comes from.
    pub open spec fn edges(&self) -> Set<(u32, u32)> {
        graph_of(self.incoming@)
    }

    /// An empty batch.
    pub fn new() -> (batch: IncomingLinkBatch)
        ensures
            batch.size == 0,
            batch.incoming@ == Map::<u32, Vec<u32>>::empty(),
    {
        IncomingLinkBatch { size: 0, incoming: HashMap::new() }
    }

    /// Puts the link from `source` to `target` into the batch.
    pub fn insert(&mut self, source: u32, target: u32)
        ensures
            final(self).incoming@.dom() =~= old(self).incoming@.dom().insert(target),
            final(self).incoming@[target]@ == list_of(old(self).incoming@, target).push(source),
            forall|k: u32|
                k != target && #[trigger] old(self).incoming@.contains_key(k)
                    ==> final(self).incoming@[k] == old(self).incoming@[k],
            final(self).size == bumped(old(self).size),
            forall|e: (u32, u32)| #[trigger]
                final(self).edges().contains(e) <==> old(self).edges().contains(e) || e == (
                    target,
                    source,
                ),
            no_empty_list(old(self).incoming@) ==> no_empty_list(final(self).incoming@),
    {
        let mut list = match self.incoming.remove(&target) {
            Some(list) => list,
            None => Vec::new(),
        };
        let ghost before = list@;
        list.push(source);
        self.incoming.insert(target, list);
        if self.size < usize::MAX {
            self.size = self.size + 1;
        }
        proof {
            if no_empty_list(old(self).incoming@) {
                assert forall|p: u32| #[trigger]
                    self.incoming@.contains_key(p) implies self.incoming@[p]@.len() > 0 by {
                    if p != target {
                        assert(old(self).incoming@.contains_key(p));
                    }
                }
            }
            assert forall|e: (u32, u32)| #[trigger]
                self.edges().contains(e) <==> old(self).edges().contains(e) || e == (
                    target,
                    source,
                ) by {
                if e.0 == target {
                    lemma_push_contains(before, source, e.1);
                }
            }
        }
    }

    /// Takes everything out of the batch: each page with the pages of the
    /// links that lead to it.
    pub fn drain(&mut self) -> (entries: Vec<(u32, Vec<u32>)>)
        ensures
            entries_of(entries@, old(self).incoming@),
            final(self).size == 0,
            final(self).incoming@ == Map::<u32, Vec<u32>>::empty(),
    {
        let keys = keys_of(&self.incoming);
        let mut entries: Vec<(u32, Vec<u32>)> = Vec::new();
        let mut i: usize = 0;
        proof {
            assert forall|k: u32| #[trigger]
                self.incoming@.contains_key(k) <==> exists|j: int|
                    0 <= j < keys@.len() && keys@[j] == k by {
                assert(keys@.contains(k) <==> self.incoming@.contains_key(k));
            }
        }
        while i < keys.len()
            invariant
                i <= keys@.len(),
                keys@.no_duplicates(),
                forall|k: u32| #[trigger] keys@.contains(k) <==> old(self).incoming@.contains_key(k),
                entries@.len() == i,
                forall|j: int| 0 <= j < i ==> (#[trigger] entries@[j]).0 == keys@[j],
                forall|j: int|
                    0 <= j < i ==> (#[trigger] entries@[j]).1 == old(self).incoming@[keys@[j]],
                forall|k: u32| #[trigger]
                    self.incoming@.contains_key(k) <==> exists|j: int|
                        i <= j < keys@.len() && keys@[j] == k,
                forall|j: int|
                    i <= j < keys@.len() ==> self.incoming@[#[trigger] keys@[j]] == old(
                        self,
                    ).incoming@[keys@[j]],
            decreases keys@.len() - i,
        {
            let key: u32 = keys[i];
            let ghost lists_before = self.incoming@;
            assert(self.incoming@.contains_key(key)) by {
                assert(i <= i < keys@.len() && keys@[i as int] == key);
            }
            let list = match self.incoming.remove(&key) {
                Some(list) => list,
                None => Vec::new(),
            };
            entries.push((key, list));
            proof {
                assert forall|k: u32| #[trigger]
                    self.incoming@.contains_key(k) <==> exists|j: int|
                        i + 1 <= j < keys@.len() && keys@[j] == k by {
                    if self.incoming@.contains_key(k) {
                        assert(lists_before.contains_key(k));
                        let j = choose|j: int| i <= j < keys@.len() && keys@[j] == k;
                        assert(i + 1 <= j < keys@.len() && keys@[j] == k);
                    }
                    if exists|j: int| i + 1 <= j < keys@.len() && keys@[j] == k {
                        let j = choose|j: int| i + 1 <= j < keys@.len() && keys@[j] == k;
                        assert(i <= j < keys@.len() && keys@[j] == k);
                        assert(keys@[j] != keys@[i as int]);
                    }
                }
                assert forall|j: int| i + 1 <= j < keys@.len() implies self.incoming@[
                    #[trigger] keys@[j]] == old(self).incoming@[keys@[j]] by {
                    assert(keys@[j] != keys@[i as int]);
                }
            }
            i = i + 1;
        }
        self.size = 0;
        proof {
            assert(self.incoming@ =~= Map::<u32, Vec<u32>>::empty());
            assert forall|k: u32| #[trigger] old(self).incoming@.contains_key(k) implies exists|
                j: int,
            | 0 <= j < entries@.len() && entries@[j].0 == k by {
                assert(keys@.contains(k));
                let j = choose|j: int| 0 <= j < keys@.len() && keys@[j] == k;
                assert(entries@[j].0 == k);
            }
            assert forall|j: int| 0 <= j < entries@.len() implies old(self).incoming@.contains_key(
                (#[trigger] entries@[j]).0,
            ) && old(self).incoming@[entries@[j].0] == entries@[j].1 by {
                assert(keys@.contains(keys@[j]));
            }
        }
        entries
    }

    /// The number of links put in since the batch was last drained.
    pub fn size(&self) -> (size: usize)
        ensures
            size == self.size,
    {
        self.size
    }
}

/// The limit on the memory in use where none is chosen: twelve gibibytes.
pub const DEFAULT_MEMORY_LIMIT: u64 = 12884901888;

/// What the inserter gives up next.
#[derive(Debug, Clone, Copy, PartialEq, Eq, Structural)]
pub enum Flush {
    Nothing,
    /// The batch for the incoming table.
    Incoming,
    /// The batch for the outgoing table.
    Outgoing,
}

/// The staging of links between the parser and the database: one batch for
/// each adjacency table, a limit on the memory in use, and the number of
/// links that each table has been given so far.
#[derive(Debug)]
pub struct LinkInserter {
    /// Links by the page that they lead to.
    pub incoming: IncomingLinkBatch,
    /// Links by the page that they come from.
    pub outgoing: IncomingLinkBatch,
    /// The number of bytes of memory above which batches are given up.
    pub memory_limit: u64,
    pub inserted_incoming: u64,
    pub inserted_outgoing: u64,
}

/// `n` more than `count`, as far as it fits.
pub open spec fn counted(count: u64, n: usize) -> u64 {
    if count + n > u64::MAX {
        u64::MAX
    } else {
        (count + n) as u64
    }
}

/// What to give up after a look at the memory in use, `flushed` being what
/// was given up last since the look before: nothing while the memory in use
/// is within the limit; else the incoming batch first, then the outgoing
/// batch, then nothing more until the next look.
pub open spec fn flush_after(memory_limit: u64, used: u64, flushed: Flush) -> Flush {
    if used <= memory_limit {
        Flush::Nothing
    } else {
        match flushed {
            Flush::Nothing => Flush::Incoming,
            Flush::Incoming => Flush::Outgoing,
            Flush::Outgoing => Flush::Nothing,
        }
    }
}

impl LinkInserter {
    /// The links of the database and of the inserter together are the same
    /// in both directions: what the incoming side holds is what the outgoing
    /// side holds, turned round.
    pub open spec fn feeds(&self, db: &Database) -> bool {
        graph_of(db.incoming@).union(self.incoming.edges()) == reversed(
            graph_of(db.outgoing@).union(self.outgoing.edges()),
        )
    }

    /// The number of links that the incoming side has been given: those
    /// given on to the database and those in the batch.
    pub open spec fn links(&self) -> int {
        self.inserted_incoming + self.incoming.size
    }

    /// Both sides have been given the same number of links, and the numbers
    /// kept of them are the true ones: none has reached the greatest value
    /// that it can hold.
    pub open spec fn balanced(&self) -> bool {
        &&& self.inserted_incoming + self.incoming.size == self.inserted_outgoing
            + self.outgoing.size
        &&& self.links() <= u64::MAX
    }

    /// One more link can be counted.
    pub open spec fn has_room(&self) -> bool {
        &&& self.links() < u64::MAX
        &&& self.incoming.size < usize::MAX
        &&& self.outgoing.size < usize::MAX
    }

    /// An inserter with empty batches. It cannot start where more memory is
    /// in use than the limit allows.
    pub fn begin(memory_limit: u64, used: u64) -> (inserter: Result<LinkInserter, Error>)
        ensures
            inserter is Ok <==> used <= memory_limit,
            inserter matches Err(e) ==> e == Error::ResourceExhausted,
            inserter matches Ok(i) ==> i.memory_limit == memory_limit && i.inserted_incoming == 0
                && i.inserted_outgoing == 0 && i.incoming.size == 0 && i.outgoing.size == 0
                && i.incoming.incoming@ == Map::<u32, Vec<u32>>::empty() && i.outgoing.incoming@
                == Map::<u32, Vec<u32>>::empty(),
            inserter matches Ok(i) ==> i.balanced() && i.links() == 0,
    {
        if used > memory_limit {
            return Err(Error::ResourceExhausted);
        }
        Ok(
            LinkInserter {
                incoming: IncomingLinkBatch::new(),
                outgoing: IncomingLinkBatch::new(),
                memory_limit,
                inserted_incoming: 0,
                inserted_outgoing: 0,
            },
        )
    }

    /// Puts the link from `source` to `target` into both batches: `source`
    /// behind the list of `target` in the incoming batch, `target` behind the
    /// list of `source` in the outgoing batch.
    pub fn insert(&mut self, source: u32, target: u32)
        ensures
            forall|e: (u32, u32)| #[trigger]
                final(self).incoming.edges().contains(e) <==> old(self).incoming.edges().contains(e)
                    || e == (target, source),
            forall|e: (u32, u32)| #[trigger]
                final(self).outgoing.edges().contains(e) <==> old(self).outgoing.edges().contains(e)
                    || e == (source, target),
            final(self).incoming.incoming@.dom() =~= old(self).incoming.incoming@.dom().insert(
                target,
            ),
            final(self).incoming.incoming@[target]@ == list_of(
                old(self).incoming.incoming@,
                target,
            ).push(source),
            forall|k: u32|
                k != target && #[trigger] old(self).incoming.incoming@.contains_key(k)
                    ==> final(self).incoming.incoming@[k] == old(self).incoming.incoming@[k],
            final(self).outgoing.incoming@.dom() =~= old(self).outgoing.incoming@.dom().insert(
                source,
            ),
            final(self).outgoing.incoming@[source]@ == list_of(
                old(self).outgoing.incoming@,
                source,
            ).push(target),
            forall|k: u32|
                k != source && #[trigger] old(self).outgoing.incoming@.contains_key(k)
                    ==> final(self).outgoing.incoming@[k] == old(self).outgoing.incoming@[k],
            final(self).incoming.size == bumped(old(self).incoming.size),
            final(self).outgoing.size == bumped(old(self).outgoing.size),
            final(self).memory_limit == old(self).memory_limit,
            final(self).inserted_incoming == old(self).inserted_incoming,
            final(self).inserted_outgoing == old(self).inserted_outgoing,
            forall|db: &Database| #[trigger] old(self).feeds(db) ==> final(self).feeds(db),
            old(self).balanced() && old(self).has_room() ==> final(self).balanced(),
            old(self).balanced() && old(self).has_room()
                ==> final(self).links() == old(self).links() + 1,
    {
        self.incoming.insert(source, target);
        self.outgoing.insert(target, source);
        proof {
            assert forall|db: &Database| #[trigger] old(self).feeds(db) implies self.feeds(db) by {
                let left = graph_of(db.incoming@).union(self.incoming.edges());
                let right = reversed(graph_of(db.outgoing@).union(self.outgoing.edges()));
                let old_left = graph_of(db.incoming@).union(old(self).incoming.edges());
                let old_right = reversed(
                    graph_of(db.outgoing@).union(old(self).outgoing.edges()),
                );
                assert forall|e: (u32, u32)| left.contains(e) <==> right.contains(e) by {
                    assert(old_left.contains(e) <==> old_right.contains(e));
                    assert(self.incoming.edges().contains(e) <==> old(self).incoming.edges().contains(
                        e,
                    ) || e == (target, source));
                    assert(self.outgoing.edges().contains((e.1, e.0)) <==> old(
                        self,
                    ).outgoing.edges().contains((e.1, e.0)) || (e.1, e.0) == (source, target));
                }
                assert(left =~= right);
            }
        }
    }

    /// What to give up after a look at the memory in use.
    pub fn next_flush(&self, used: u64, flushed: Flush) -> (next: Flush)
        ensures
            next == flush_after(self.memory_limit, used, flushed),
    {
        if used <= self.memory_limit {
            Flush::Nothing
        } else {
            match flushed {
                Flush::Nothing => Flush::Incoming,
                Flush::Incoming => Flush::Outgoing,
                Flush::Outgoing => Flush::Nothing,
            }
        }
    }

    /// Takes the batch for the incoming table, and counts its links.
    pub fn take_incoming(&mut self) -> (entries: Vec<(u32, Vec<u32>)>)
        ensures
            entries_of(entries@, old(self).incoming.incoming@),
            final(self).incoming.size == 0,
            final(self).incoming.incoming@ == Map::<u32, Vec<u32>>::empty(),
            final(self).inserted_incoming == counted(
                old(self).inserted_incoming,
                old(self).incoming.size,
            ),
            final(self).outgoing == old(self).outgoing,
            final(self).memory_limit == old(self).memory_limit,
            final(self).inserted_outgoing == old(self).inserted_outgoing,
            old(self).balanced() ==> final(self).balanced(),
            old(self).balanced() ==> final(self).links() == old(self).links(),
    {
        let size: u64 = self.incoming.size() as u64;
        self.inserted_incoming = self.inserted_incoming.saturating_add(size);
        self.incoming.drain()
    }

    /// Takes the batch for the outgoing table, and counts its links.
    pub fn take_outgoing(&mut self) -> (entries: Vec<(u32, Vec<u32>)>)
        ensures
            entries_of(entries@, old(self).outgoing.incoming@),
            final(self).outgoing.size == 0,
            final(self).outgoing.incoming@ == Map::<u32, Vec<u32>>::empty(),
            final(self).inserted_outgoing == counted(
                old(self).inserted_outgoing,
                old(self).outgoing.size,
            ),
            final(self).incoming == old(self).incoming,
            final(self).memory_limit == old(self).memory_limit,
            final(self).inserted_incoming == old(self).inserted_incoming,
            old(self).balanced() ==> final(self).balanced(),
            old(self).balanced() ==> final(self).links() == old(self).links(),
    {
        let size: u64 = self.outgoing.size() as u64;
        self.inserted_outgoing = self.inserted_outgoing.saturating_add(size);
        self.outgoing.drain()
    }

    /// The number of links given to the database, once both batches are
    /// empty and both tables have been given the same number of links. Else
    /// the database is not as it must be.
    pub fn finish(&self) -> (total: Result<u64, Error>)
        ensures
            total is Ok <==> self.incoming.size == 0 && self.outgoing.size == 0
                && self.inserted_incoming == self.inserted_outgoing,
            total matches Ok(n) ==> n == self.inserted_incoming,
            total matches Err(e) ==> e == Error::IntegrityViolation,
    {
        if self.incoming.size() != 0 || self.outgoing.size() != 0 || self.inserted_incoming
            != self.inserted_outgoing {
            return Err(Error::IntegrityViolation);
        }
        Ok(self.inserted_incoming)
    }
}

impl LinkInserter {
    /// Gives the incoming batch to the incoming table of the database.
    pub fn flush_incoming(&mut self, db: &mut Database)
        requires
            old(db).sorted(),
        ensures
            graph_of(final(db).incoming@) == graph_of(old(db).incoming@).union(
                old(self).incoming.edges(),
            ),
            final(db).sorted(),
            final(db).outgoing == old(db).outgoing,
            final(db).redirects == old(db).redirects,
            final(db).metadata == old(db).metadata,
            final(self).incoming.size == 0,
            final(self).incoming.incoming@ == Map::<u32, Vec<u32>>::empty(),
            final(self).inserted_incoming == counted(
                old(self).inserted_incoming,
                old(self).incoming.size,
            ),
            final(self).outgoing == old(self).outgoing,
            final(self).memory_limit == old(self).memory_limit,
            final(self).inserted_outgoing == old(self).inserted_outgoing,
            old(self).feeds(old(db)) ==> final(self).feeds(final(db)),
            old(self).balanced() ==> final(self).balanced(),
            old(self).balanced() ==> final(self).links() == old(self).links(),
    {
        let entries = self.take_incoming();
        proof {
            lemma_entries_edges(entries@, old(self).incoming.incoming@);
        }
        store_entries(&mut db.incoming, entries);
        proof {
            assert(self.incoming.edges() =~= Set::<(u32, u32)>::empty());
            assert(graph_of(db.incoming@).union(self.incoming.edges()) =~= graph_of(
                old(db).incoming@,
            ).union(old(self).incoming.edges()));
        }
    }

    /// Gives the outgoing batch to the outgoing table of the database.
    pub fn flush_outgoing(&mut self, db: &mut Database)
        requires
            old(db).sorted(),
        ensures
            graph_of(final(db).outgoing@) == graph_of(old(db).outgoing@).union(
                old(self).outgoing.edges(),
            ),
            final(db).sorted(),
            final(db).incoming == old(db).incoming,
            final(db).redirects == old(db).redirects,
            final(db).metadata == old(db).metadata,
            final(self).outgoing.size == 0,
            final(self).outgoing.incoming@ == Map::<u32, Vec<u32>>::empty(),
            final(self).inserted_outgoing == counted(
                old(self).inserted_outgoing,
                old(self).outgoing.size,
            ),
            final(self).incoming == old(self).incoming,
            final(self).memory_limit == old(self).memory_limit,
            final(self).inserted_incoming == old(self).inserted_incoming,
            old(self).feeds(old(db)) ==> final(self).feeds(final(db)),
            old(self).balanced() ==> final(self).balanced(),
            old(self).balanced() ==> final(self).links() == old(self).links(),
    {
        let entries = self.take_outgoing();
        proof {
            lemma_entries_edges(entries@, old(self).outgoing.incoming@);
        }
        store_entries(&mut db.outgoing, entries);
        proof {
            assert(self.outgoing.edges() =~= Set::<(u32, u32)>::empty());
            assert(graph_of(db.outgoing@).union(self.outgoing.edges()) =~= graph_of(
                old(db).outgoing@,
            ).union(old(self).outgoing.edges()));
        }
    }

    /// Gives both batches to the database and checks that both tables were
    /// given the same number of links; returns that number. Where the
    /// inserter fed the database, the two tables then hold the same links.
    /// An inserter that is balanced, as one is that was only ever given links
    /// by `insert`, does not fail here.
    pub fn flush_and_commit(&mut self, db: &mut Database) -> (total: Result<u64, Error>)
        requires
            old(db).sorted(),
        ensures
            final(db).sorted(),
            old(self).feeds(old(db)) ==> final(db).transposed(),
            graph_of(final(db).incoming@) == graph_of(old(db).incoming@).union(
                old(self).incoming.edges(),
            ),
            graph_of(final(db).outgoing@) == graph_of(old(db).outgoing@).union(
                old(self).outgoing.edges(),
            ),
            final(db).redirects == old(db).redirects,
            final(db).metadata == old(db).metadata,
            total is Ok <==> counted(old(self).inserted_incoming, old(self).incoming.size)
                == counted(old(self).inserted_outgoing, old(self).outgoing.size),
            total matches Ok(n) ==> n == counted(
                old(self).inserted_incoming,
                old(self).incoming.size,
            ),
            total matches Err(e) ==> e == Error::IntegrityViolation,
            old(self).balanced() ==> total == Ok::<u64, Error>(old(self).links() as u64),
    {
        self.flush_incoming(db);
        self.flush_outgoing(db);
        proof {
            if old(self).feeds(old(db)) {
                assert(self.feeds(db));
                assert(graph_of(db.incoming@).union(self.incoming.edges()) =~= graph_of(
                    db.incoming@,
                ));
                assert(graph_of(db.outgoing@).union(self.outgoing.edges()) =~= graph_of(
                    db.outgoing@,
                ));
            }
        }
        self.finish()
    }
}

/// The edges that the entries of a batch hold.
pub open spec fn edges_of_entries(entries: Seq<(u32, Vec<u32>)>) -> Set<(u32, u32)> {
    Set::new(
        |e: (u32, u32)|
            exists|i: int|
                0 <= i < entries.len() && (#[trigger] entries[i]).0 == e.0 && entries[i].1@.contains(
                    e.1,
                ),
    )
}

/// The entries of a batch hold the edges of the batch.
pub proof fn lemma_entries_edges(entries: Seq<(u32, Vec<u32>)>, lists: Map<u32, Vec<u32>>)
    requires
        entries_of(entries, lists),
    ensures
        edges_of_entries(entries) == graph_of(lists),
{
    assert forall|e: (u32, u32)| edges_of_entries(entries).contains(e) <==> graph_of(
        lists,
    ).contains(e) by {
        if graph_of(lists).contains(e) {
            let i = choose|i: int| 0 <= i < entries.len() && entries[i].0 == e.0;
            assert(lists[entries[i].0] == entries[i].1);
        }
        if edges_of_entries(entries).contains(e) {
            let i = choose|i: int|
                0 <= i < entries.len() && (#[trigger] entries[i]).0 == e.0 && entries[i].1@.contains(
                    e.1,
                );
            assert(lists.contains_key(entries[i].0) && lists[entries[i].0] == entries[i].1);
        }
    }
    assert(edges_of_entries(entries) =~= graph_of(lists));
}

/// Puts the entries of a batch into a table, list by list.
pub fn store_entries(table: &mut HashMap<u32, Vec<u32>>, entries: Vec<(u32, Vec<u32>)>)
    requires
        forall|p: u32| #[trigger]
            old(table)@.contains_key(p) ==> crate::database::strictly_ascending(old(table)@[p]@),
    ensures
        graph_of(final(table)@) == graph_of(old(table)@).union(edges_of_entries(entries@)),
        forall|p: u32| #[trigger]
            final(table)@.contains_key(p) ==> crate::database::strictly_ascending(
                final(table)@[p]@,
            ),
        no_empty_list(old(table)@) && (forall|i: int|
            0 <= i < entries@.len() ==> (#[trigger] entries@[i]).1@.len() > 0) ==> no_empty_list(
            final(table)@,
        ),
{
    let mut entries = entries;
    let ghost all = entries@;
    let ghost mut done: Seq<(u32, Vec<u32>)> = Seq::empty();
    let ghost tidy = no_empty_list(old(table)@) && (forall|i: int|
        0 <= i < all.len() ==> (#[trigger] all[i]).1@.len() > 0);
    proof {
        assert(graph_of(table@).union(edges_of_entries(done)) =~= graph_of(table@));
    }
    while entries.len() > 0
        invariant
            all == entries@ + done.reverse(),
            tidy ==> no_empty_list(table@),
            tidy ==> (forall|i: int| 0 <= i < all.len() ==> (#[trigger] all[i]).1@.len() > 0),
            graph_of(table@) == graph_of(old(table)@).union(edges_of_entries(done)),
            forall|p: u32| #[trigger]
                table@.contains_key(p) ==> crate::database::strictly_ascending(table@[p]@),
        decreases entries@.len(),
    {
        let ghost entries_before = entries@;
        let ghost table_before = table@;
        let (key, values) = match entries.pop() {
            Some(entry) => entry,
            None => (0, Vec::new()),
        };
        let ghost entry = (key, values);
        proof {
            assert(entries_before.len() > 0);
            assert(all[entries_before.len() - 1] == entries_before.last());
            assert(entry == entries_before.last());
        }
        crate::database::insert_links(table, key, values);
        proof {
            crate::database::lemma_inserted_edges(table_before, table@, key, values@);
            let longer = done.push(entry);
            assert(longer.reverse() =~= seq![entry] + done.reverse());
            assert(entries_before =~= entries@.push(entry));
            assert(all =~= entries@ + longer.reverse());
            assert forall|e: (u32, u32)|
                edges_of_entries(longer).contains(e) <==> edges_of_entries(done).contains(e)
                    || crate::database::edges_to(key, values@).contains(e) by {
                if edges_of_entries(longer).contains(e) {
                    let i = choose|i: int|
                        0 <= i < longer.len() && (#[trigger] longer[i]).0 == e.0
                            && longer[i].1@.contains(e.1);
                    if i < done.len() {
                        assert(done[i].0 == e.0 && done[i].1@.contains(e.1));
                    }
                }
                if edges_of_entries(done).contains(e) {
                    let i = choose|i: int|
                        0 <= i < done.len() && (#[trigger] done[i]).0 == e.0 && done[i].1@.contains(
                            e.1,
                        );
                    assert(longer[i].0 == e.0 && longer[i].1@.contains(e.1));
                }
                if crate::database::edges_to(key, values@).contains(e) {
                    assert(longer[done.len() as int].0 == e.0);
                }
            }
            assert(graph_of(table@) =~= graph_of(old(table)@).union(edges_of_entries(longer)));
            done = longer;
        }
    }
    proof {
        assert(all =~= done.reverse());
        assert forall|e: (u32, u32)|
            edges_of_entries(all).contains(e) <==> edges_of_entries(done).contains(e) by {
            let n = done.len() as int;
            if edges_of_entries(all).contains(e) {
                let i = choose|i: int|
                    0 <= i < all.len() && (#[trigger] all[i]).0 == e.0 && all[i].1@.contains(e.1);
                assert(done[n - 1 - i].0 == e.0 && done[n - 1 - i].1@.contains(e.1));
            }
            if edges_of_entries(done).contains(e) {
                let i = choose|i: int|
                    0 <= i < done.len() && (#[trigger] done[i]).0 == e.0 && done[i].1@.contains(
                        e.1,
                    );
                assert(all[n - 1 - i].0 == e.0 && all[n - 1 - i].1@.contains(e.1));
            }
        }
        assert(edges_of_entries(all) =~= edges_of_entries(done));
    }
}

} // verus!
