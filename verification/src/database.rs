//! The database: the redirect table and the two adjacency tables, with the
//! invariants that hold once it is built.

use crate::adjacency::{
    copy_list, is_sorted_unique_of, is_strictly_ascending, merge_links, normalize,
};
use crate::error::Error;
use crate::frontier::{edges_from_all, lemma_push_contains};
use crate::graph::{graph_of, reversed};
use crate::redirects::keys_of;
use crate::metadata::Metadata;
use std::collections::HashMap;
use vstd::prelude::*;
use vstd::std_specs::hash::*;

verus! {

broadcast use vstd::std_specs::hash::group_hash_axioms;

/// The id of an article. Ids are dense but not free of gaps.
pub type PageId = u32;

/// The id of a row of the link target table; it exists only during a build.
pub type LinkTargetId = u64;

/// The greatest size that a database on disk may grow to: thirty-two
/// gibibytes.
pub const MAP_SIZE: u64 = 34359738368;

/// The name of the table of redirects.
pub const REDIRECTS_TABLE: &'static str = "redirects";

/// The name of the table of the pages that link to a page.
pub const INCOMING_TABLE: &'static str = "incoming";

/// The name of the table of the pages that a page links to.
pub const OUTGOING_TABLE: &'static str = "outgoing";

/// Each item of `list` is greater than the one before it.
pub open spec fn strictly_ascending(list: Seq<u32>) -> bool {
    forall|i: int, j: int| 0 <= i < j < list.len() ==> list[i] < list[j]
}

/// No list of the table is empty: every key is an end of a link.
pub open spec fn no_empty_list(table: Map<u32, Vec<u32>>) -> bool {
    forall|p: u32| #[trigger] table.contains_key(p) ==> table[p]@.len() > 0
}

/// Puts `value` behind the list of `key`.
fn push_link(table: &mut HashMap<u32, Vec<u32>>, key: u32, value: u32)
    ensures
        forall|e: (u32, u32)| #[trigger]
            graph_of(final(table)@).contains(e) <==> graph_of(old(table)@).contains(e) || e == (
                key,
                value,
            ),
        no_empty_list(old(table)@) ==> no_empty_list(final(table)@),
{
    let mut list = match table.remove(&key) {
        Some(list) => list,
        None => Vec::new(),
    };
    let ghost before = list@;
    list.push(value);
    table.insert(key, list);
    proof {
        if no_empty_list(old(table)@) {
            assert forall|p: u32| #[trigger] table@.contains_key(p) implies table@[p]@.len()
                > 0 by {
                if p != key {
                    assert(old(table)@.contains_key(p));
                }
            }
        }
        assert forall|e: (u32, u32)| #[trigger]
            graph_of(table@).contains(e) <==> graph_of(old(table)@).contains(e) || e == (
                key,
                value,
            ) by {
            if e.0 == key {
                lemma_push_contains(before, value, e.1);
            }
        }
    }
}

/// Sorts every list of the table and drops what occurs twice.
fn normalize_table(table: &mut HashMap<u32, Vec<u32>>)
    ensures
        graph_of(final(table)@) == graph_of(old(table)@),
        forall|p: u32| #[trigger]
            final(table)@.contains_key(p) ==> strictly_ascending(final(table)@[p]@),
        no_empty_list(old(table)@) ==> no_empty_list(final(table)@),
{
    let keys = keys_of(table);
    let mut i: usize = 0;
    while i < keys.len()
        invariant
            i <= keys.len(),
            keys@.no_duplicates(),
            forall|k: u32| #[trigger] keys@.contains(k) <==> table@.contains_key(k),
            graph_of(table@) =~= graph_of(old(table)@),
            no_empty_list(old(table)@) ==> no_empty_list(table@),
            forall|j: int|
                0 <= j < i ==> strictly_ascending(table@[#[trigger] keys@[j]]@),
        decreases keys.len() - i,
    {
        let key: u32 = keys[i];
        let ghost table_before = table@;
        assert(keys@.contains(key));
        let list = match table.remove(&key) {
            Some(list) => list,
            None => Vec::new(),
        };
        let sorted = normalize(list);
        table.insert(key, sorted);
        proof {
            assert(table@.dom() =~= table_before.dom());
            if no_empty_list(old(table)@) {
                assert(table_before[key]@.len() > 0);
                assert(list@.contains(list@[0]));
                assert(sorted@.contains(list@[0]));
                assert forall|p: u32| #[trigger] table@.contains_key(p) implies table@[p]@.len()
                    > 0 by {
                    if p != key {
                        assert(table_before.contains_key(p));
                    }
                }
            }
            assert forall|e: (u32, u32)|
                graph_of(table@).contains(e) <==> graph_of(table_before).contains(e) by {
                if e.0 == key {
                    assert(sorted@.contains(e.1) <==> list@.contains(e.1));
                }
            }
            assert(graph_of(table@) =~= graph_of(table_before));
            assert forall|j: int| 0 <= j < i + 1 implies strictly_ascending(
                table@[#[trigger] keys@[j]]@,
            ) by {
                if j < i {
                    assert(keys@[j] != keys@[i as int]);
                }
            }
        }
        i = i + 1;
    }
    proof {
        assert forall|p: u32| #[trigger] table@.contains_key(p) implies strictly_ascending(
            table@[p]@,
        ) by {
            assert(keys@.contains(p));
            let j = choose|j: int| 0 <= j < keys@.len() && keys@[j] == p;
            assert(strictly_ascending(table@[keys@[j]]@));
        }
    }
}

/// The table with every edge turned round: the list of `v` holds `u` exactly
/// when the list of `u` in `table` holds `v`. Every list is strictly
/// ascending.
pub fn transpose(table: &HashMap<u32, Vec<u32>>) -> (turned: HashMap<u32, Vec<u32>>)
    ensures
        graph_of(turned@) == reversed(graph_of(table@)),
        forall|p: u32| #[trigger] turned@.contains_key(p) ==> strictly_ascending(turned@[p]@),
        no_empty_list(turned@),
{
    let ghost g = graph_of(table@);
    let mut turned: HashMap<u32, Vec<u32>> = HashMap::new();
    let keys = keys_of(table);
    let mut i: usize = 0;
    while i < keys.len()
        invariant
            i <= keys.len(),
            no_empty_list(turned@),
            g == graph_of(table@),
            forall|k: u32| #[trigger] keys@.contains(k) <==> table@.contains_key(k),
            graph_of(turned@) =~= reversed(edges_from_all(g, keys@.take(i as int))),
        decreases keys.len() - i,
    {
        let key: u32 = keys[i];
        let ghost done = edges_from_all(g, keys@.take(i as int));
        assert(keys@.contains(key));
        match table.get(&key) {
            Some(list) => {
                let mut j: usize = 0;
                while j < list.len()
                    invariant
                        j <= list.len(),
                        no_empty_list(turned@),
                        table@.contains_key(key),
                        table@[key] == *list,
                        g == graph_of(table@),
                        forall|e: (u32, u32)| #[trigger]
                            graph_of(turned@).contains(e) <==> reversed(done).contains(e) || (e.1
                                == key && list@.take(j as int).contains(e.0)),
                    decreases list.len() - j,
                {
                    let value: u32 = list[j];
                    let ghost turned_before = turned@;
                    push_link(&mut turned, value, key);
                    proof {
                        assert(list@.take(j + 1) =~= list@.take(j as int).push(value));
                        assert forall|e: (u32, u32)| #[trigger]
                            graph_of(turned@).contains(e) <==> reversed(done).contains(e) || (e.1
                                == key && list@.take(j + 1).contains(e.0)) by {
                            lemma_push_contains(list@.take(j as int), value, e.0);
                            assert(graph_of(turned@).contains(e) <==> graph_of(
                                turned_before,
                            ).contains(e) || e == (value, key));
                        }
                    }
                    j = j + 1;
                }
                proof {
                    assert(list@.take(list@.len() as int) =~= list@);
                }
            },
            None => {},
        }
        proof {
            assert(keys@.take(i + 1) =~= keys@.take(i as int).push(key));
            assert forall|e: (u32, u32)|
                graph_of(turned@).contains(e) <==> reversed(
                    edges_from_all(g, keys@.take(i + 1)),
                ).contains(e) by {
                lemma_push_contains(keys@.take(i as int), key, e.1);
            }
            assert(graph_of(turned@) =~= reversed(edges_from_all(g, keys@.take(i + 1))));
        }
        i = i + 1;
    }
    proof {
        assert(keys@.take(keys@.len() as int) =~= keys@);
        assert(edges_from_all(g, keys@) =~= g);
    }
    normalize_table(&mut turned);
    turned
}

/// The list of `key` in `lists`; the empty list where it has none.
pub open spec fn list_of(lists: Map<u32, Vec<u32>>, key: u32) -> Seq<u32> {
    if lists.contains_key(key) {
        lists[key]@
    } else {
        Seq::empty()
    }
}

/// The edges from `key` to each page of `values`.
pub open spec fn edges_to(key: u32, values: Seq<u32>) -> Set<(u32, u32)> {
    Set::new(|e: (u32, u32)| e.0 == key && values.contains(e.1))
}

/// `after` is `before` with `values` added to the list of `key`: that list
/// holds what it held and `values`, sorted and each page once, and every
/// other list is as it was.
pub open spec fn inserted_into(
    before: Map<u32, Vec<u32>>,
    after: Map<u32, Vec<u32>>,
    key: u32,
    values: Seq<u32>,
) -> bool {
    &&& after.dom() =~= before.dom().insert(key)
    &&& is_sorted_unique_of(after[key]@, list_of(before, key) + values)
    &&& forall|p: u32| p != key && #[trigger] before.contains_key(p) ==> after[p] == before[p]
}

/// Adding to a list adds the edges from its key to the pages added, and no
/// other edge.
pub proof fn lemma_inserted_edges(
    before: Map<u32, Vec<u32>>,
    after: Map<u32, Vec<u32>>,
    key: u32,
    values: Seq<u32>,
)
    requires
        inserted_into(before, after, key, values),
    ensures
        graph_of(after) == graph_of(before).union(edges_to(key, values)),
{
    assert forall|e: (u32, u32)|
        graph_of(after).contains(e) <==> graph_of(before).union(edges_to(key, values)).contains(
            e,
        ) by {
        if e.0 == key {
            let all = list_of(before, key) + values;
            assert(after[key]@.contains(e.1) <==> all.contains(e.1));
            if all.contains(e.1) {
                let i = choose|i: int| 0 <= i < all.len() && all[i] == e.1;
                if i < list_of(before, key).len() {
                    assert(list_of(before, key)[i] == e.1);
                } else {
                    assert(values[i - list_of(before, key).len()] == e.1);
                }
            }
            if list_of(before, key).contains(e.1) {
                let i = choose|i: int|
                    0 <= i < list_of(before, key).len() && list_of(before, key)[i] == e.1;
                assert(all[i] == e.1);
            }
            if values.contains(e.1) {
                let i = choose|i: int| 0 <= i < values.len() && values[i] == e.1;
                assert(all[list_of(before, key).len() + i] == e.1);
            }
        } else {
            if before.contains_key(e.0) {
                assert(after[e.0] == before[e.0]);
            }
        }
    }
    assert(graph_of(after) =~= graph_of(before).union(edges_to(key, values)));
}

/// Adds `values` to the list of `key`, and keeps the list sorted and free of
/// duplicates. Returns whether `key` had a list already.
pub fn insert_links(table: &mut HashMap<u32, Vec<u32>>, key: u32, values: Vec<u32>) -> (appended:
    bool)
    ensures
        appended == old(table)@.contains_key(key),
        inserted_into(old(table)@, final(table)@, key, values@),
        no_empty_list(old(table)@) && values@.len() > 0 ==> no_empty_list(final(table)@),
{
    proof {
        if values@.len() > 0 {
            let all = list_of(old(table)@, key) + values@;
            assert(all[list_of(old(table)@, key).len() as int] == values@[0]);
            assert(all.contains(values@[0]));
        }
    }
    match table.remove(&key) {
        Some(existing) => {
            let merged = merge_links(&existing, &values);
            table.insert(key, merged);
            true
        },
        None => {
            let merged = normalize(values);
            assert(Seq::<u32>::empty() + values@ =~= values@);
            table.insert(key, merged);
            false
        },
    }
}

/// Whether every list of the table is strictly ascending.
pub fn all_sorted(table: &HashMap<u32, Vec<u32>>) -> (sorted: bool)
    ensures
        sorted == (forall|p: u32| #[trigger]
            table@.contains_key(p) ==> strictly_ascending(table@[p]@)),
{
    let keys = keys_of(table);
    let mut i: usize = 0;
    while i < keys.len()
        invariant
            i <= keys@.len(),
            forall|k: u32| #[trigger] keys@.contains(k) <==> table@.contains_key(k),
            forall|j: int| 0 <= j < i ==> strictly_ascending(table@[#[trigger] keys@[j]]@),
        decreases keys@.len() - i,
    {
        let key: u32 = keys[i];
        assert(keys@.contains(key));
        let ok = match table.get(&key) {
            Some(list) => is_strictly_ascending(list),
            None => true,
        };
        if !ok {
            return false;
        }
        i = i + 1;
    }
    proof {
        assert forall|p: u32| #[trigger] table@.contains_key(p) implies strictly_ascending(
            table@[p]@,
        ) by {
            assert(keys@.contains(p));
            let j = choose|j: int| 0 <= j < keys@.len() && keys@[j] == p;
            assert(strictly_ascending(table@[keys@[j]]@));
        }
    }
    true
}

/// Whether the two lists are the same.
pub fn same_list(a: &Vec<u32>, b: &Vec<u32>) -> (same: bool)
    ensures
        same == (a@ == b@),
{
    if a.len() != b.len() {
        return false;
    }
    let mut i: usize = 0;
    while i < a.len()
        invariant
            i <= a@.len(),
            a@.len() == b@.len(),
            forall|j: int| 0 <= j < i ==> a@[j] == b@[j],
        decreases a@.len() - i,
    {
        if a[i] != b[i] {
            return false;
        }
        i = i + 1;
    }
    assert(a@ =~= b@);
    true
}

/// Whether every list of `a` is the list of the same key in `b`, a key
/// without a list counting as one with an empty list.
fn lists_within(a: &HashMap<u32, Vec<u32>>, b: &HashMap<u32, Vec<u32>>) -> (within: bool)
    ensures
        within == (forall|k: u32| #[trigger] a@.contains_key(k) ==> a@[k]@ == list_of(b@, k)),
{
    let keys = keys_of(a);
    let empty: Vec<u32> = Vec::new();
    let mut i: usize = 0;
    while i < keys.len()
        invariant
            i <= keys@.len(),
            empty@ == Seq::<u32>::empty(),
            forall|k: u32| #[trigger] keys@.contains(k) <==> a@.contains_key(k),
            forall|j: int| 0 <= j < i ==> a@[#[trigger] keys@[j]]@ == list_of(b@, keys@[j]),
        decreases keys@.len() - i,
    {
        let key: u32 = keys[i];
        assert(keys@.contains(key));
        let mine = match a.get(&key) {
            Some(list) => list,
            None => &empty,
        };
        let other = match b.get(&key) {
            Some(list) => list,
            None => &empty,
        };
        if !same_list(mine, other) {
            return false;
        }
        i = i + 1;
    }
    proof {
        assert forall|k: u32| #[trigger] a@.contains_key(k) implies a@[k]@ == list_of(b@, k) by {
            assert(keys@.contains(k));
            let j = choose|j: int| 0 <= j < keys@.len() && keys@[j] == k;
            assert(a@[keys@[j]]@ == list_of(b@, keys@[j]));
        }
    }
    true
}

/// Whether the two tables hold the same links, given that the lists of both
/// are strictly ascending.
pub fn same_tables(a: &HashMap<u32, Vec<u32>>, b: &HashMap<u32, Vec<u32>>) -> (same: bool)
    requires
        forall|p: u32| #[trigger] a@.contains_key(p) ==> strictly_ascending(a@[p]@),
        forall|p: u32| #[trigger] b@.contains_key(p) ==> strictly_ascending(b@[p]@),
    ensures
        same == (graph_of(a@) == graph_of(b@)),
{
    let same = lists_within(a, b) && lists_within(b, a);
    proof {
        if same {
            assert(graph_of(a@) =~= graph_of(b@)) by {
                assert forall|e: (u32, u32)| graph_of(a@).contains(e) <==> graph_of(b@).contains(
                    e,
                ) by {
                    if a@.contains_key(e.0) {
                        assert(a@[e.0]@ == list_of(b@, e.0));
                    }
                    if b@.contains_key(e.0) {
                        assert(b@[e.0]@ == list_of(a@, e.0));
                    }
                }
            }
        }
        if graph_of(a@) == graph_of(b@) {
            lemma_same_graph_same_lists(a@, b@);
            lemma_same_graph_same_lists(b@, a@);
        }
    }
    same
}

/// Two tables of strictly ascending lists that hold the same links hold the
/// same lists.
proof fn lemma_same_graph_same_lists(a: Map<u32, Vec<u32>>, b: Map<u32, Vec<u32>>)
    requires
        forall|p: u32| #[trigger] a.contains_key(p) ==> strictly_ascending(a[p]@),
        forall|p: u32| #[trigger] b.contains_key(p) ==> strictly_ascending(b[p]@),
        graph_of(a) == graph_of(b),
    ensures
        forall|k: u32| #[trigger] a.contains_key(k) ==> a[k]@ == list_of(b, k),
{
    assert forall|k: u32| #[trigger] a.contains_key(k) implies a[k]@ == list_of(b, k) by {
        let mine = a[k]@;
        let other = list_of(b, k);
        assert forall|x: u32|
            #![trigger mine.contains(x)]
            #![trigger other.contains(x)]
            mine.contains(x) <==> other.contains(x) by {
            let e = (k, x);
            assert(graph_of(a).contains(e) == graph_of(b).contains(e));
            assert(graph_of(a).contains(e) == (a.contains_key(e.0) && a[e.0]@.contains(e.1)));
            assert(graph_of(b).contains(e) == (b.contains_key(e.0) && b[e.0]@.contains(e.1)));
            if !b.contains_key(k) {
                assert(!other.contains(x));
            }
        }
        crate::adjacency::lemma_sorted_unique_is_unique(mine, other);
    }
}

/// Whether no redirecting page has a list in either table, and no redirect
/// leads to a redirecting page.
pub fn redirects_apart(
    redirects: &HashMap<u32, u32>,
    incoming: &HashMap<u32, Vec<u32>>,
    outgoing: &HashMap<u32, Vec<u32>>,
) -> (apart: bool)
    ensures
        apart == (forall|p: u32| #[trigger]
            redirects@.contains_key(p) ==> !incoming@.contains_key(p) && !outgoing@.contains_key(p)
                && !redirects@.contains_key(redirects@[p])),
{
    let keys = keys_of(redirects);
    let mut i: usize = 0;
    while i < keys.len()
        invariant
            i <= keys@.len(),
            forall|k: u32| #[trigger] keys@.contains(k) <==> redirects@.contains_key(k),
            forall|j: int|
                0 <= j < i ==> !incoming@.contains_key(#[trigger] keys@[j])
                    && !outgoing@.contains_key(keys@[j]) && !redirects@.contains_key(
                    redirects@[keys@[j]],
                ),
        decreases keys@.len() - i,
    {
        let key: u32 = keys[i];
        assert(keys@.contains(key));
        let target: u32 = match redirects.get(&key) {
            Some(target) => *target,
            None => key,
        };
        if incoming.contains_key(&key) || outgoing.contains_key(&key) || redirects.contains_key(
            &target,
        ) {
            return false;
        }
        i = i + 1;
    }
    proof {
        assert forall|p: u32| #[trigger] redirects@.contains_key(p) implies !incoming@.contains_key(
            p,
        ) && !outgoing@.contains_key(p) && !redirects@.contains_key(redirects@[p]) by {
            assert(keys@.contains(p));
            let j = choose|j: int| 0 <= j < keys@.len() && keys@[j] == p;
            assert(!incoming@.contains_key(keys@[j]));
        }
    }
    true
}

/// The rule of the redirect table: a page redirects once only. What is to be
/// written for a page, given what the table holds for it: the target where
/// it holds nothing, and a failure where it holds a redirect already.
pub fn put_if_absent(existing: Option<u32>, target: u32) -> (put: Result<u32, Error>)
    ensures
        put == (match existing {
            Some(_) => Err::<u32, Error>(Error::IntegrityViolation),
            None => Ok::<u32, Error>(target),
        }),
{
    match existing {
        Some(_) => Err(Error::IntegrityViolation),
        None => Ok(target),
    }
}

/// Where the two tables hold the same links, a page is in the outgoing list
/// of another exactly when the other is in its incoming list.
pub proof fn lemma_tables_agree(db: &Database, source: u32, target: u32)
    requires
        db.transposed(),
    ensures
        db.outgoing_of(source).contains(target) <==> db.incoming_of(target).contains(source),
{
    let out = graph_of(db.outgoing@);
    let inc = graph_of(db.incoming@);
    assert(inc.contains((target, source)) <==> reversed(out).contains((target, source)));
    assert(out.contains((source, target)) <==> db.outgoing_of(source).contains(target));
    assert(inc.contains((target, source)) <==> db.incoming_of(target).contains(source));
}

/// A built database.
pub struct Database {
    pub metadata: Metadata,
    /// A page that only forwards to another, and the page it forwards to.
    pub redirects: HashMap<u32, u32>,
    /// For a page, the pages that link to it.
    pub incoming: HashMap<u32, Vec<u32>>,
    /// For a page, the pages that it links to.
    pub outgoing: HashMap<u32, Vec<u32>>,
}

impl Database {
    /// The links of the database, as directed edges.
    pub open spec fn graph(&self) -> Set<(u32, u32)> {
        graph_of(self.outgoing@)
    }

    /// The two adjacency tables hold the same edges: `v` is in the outgoing
    /// list of `u` exactly when `u` is in the incoming list of `v`.
    pub open spec fn transposed(&self) -> bool {
        graph_of(self.incoming@) == reversed(graph_of(self.outgoing@))
    }

    /// Every adjacency list is strictly ascending.
    pub open spec fn sorted(&self) -> bool {
        &&& forall|p: u32| #[trigger]
            self.incoming@.contains_key(p) ==> strictly_ascending(self.incoming@[p]@)
        &&& forall|p: u32| #[trigger]
            self.outgoing@.contains_key(p) ==> strictly_ascending(self.outgoing@[p]@)
    }

    /// No redirecting page has an adjacency list of its own: every link is
    /// stored at the pages that the redirects lead to.
    pub open spec fn redirects_transparent(&self) -> bool {
        forall|p: u32| #[trigger]
            self.redirects@.contains_key(p) ==> !self.incoming@.contains_key(p)
                && !self.outgoing@.contains_key(p)
    }

    /// No redirect leads to a redirecting page.
    pub open spec fn redirects_flat(&self) -> bool {
        forall|p: u32| #[trigger]
            self.redirects@.contains_key(p) ==> !self.redirects@.contains_key(self.redirects@[p])
    }

    /// The invariants of a built database.
    pub open spec fn wf(&self) -> bool {
        &&& self.transposed()
        &&& self.sorted()
        &&& self.redirects_transparent()
        &&& self.redirects_flat()
    }

    /// The pages that link to `target`, as the table lists them.
    pub open spec fn incoming_of(&self, target: u32) -> Seq<u32> {
        list_of(self.incoming@, target)
    }

    /// The pages that `source` links to, as the table lists them.
    pub open spec fn outgoing_of(&self, source: u32) -> Seq<u32> {
        list_of(self.outgoing@, source)
    }

    /// A database without redirects and links.
    pub fn new(metadata: Metadata) -> (db: Database)
        ensures
            db.metadata == metadata,
            db.redirects@ == Map::<u32, u32>::empty(),
            db.incoming@ == Map::<u32, Vec<u32>>::empty(),
            db.outgoing@ == Map::<u32, Vec<u32>>::empty(),
    {
        Database {
            metadata,
            redirects: HashMap::new(),
            incoming: HashMap::new(),
            outgoing: HashMap::new(),
        }
    }

    /// The page that `page` redirects to, if it redirects.
    pub fn get_redirect(&self, page: u32) -> (target: Option<u32>)
        ensures
            target == (if self.redirects@.contains_key(page) {
                Some(self.redirects@[page])
            } else {
                None
            }),
    {
        match self.redirects.get(&page) {
            Some(target) => Some(*target),
            None => None,
        }
    }

    /// The pages that link to `target`; none where the table has no entry.
    pub fn get_incoming_links(&self, target: u32) -> (sources: Vec<u32>)
        ensures
            sources@ == self.incoming_of(target),
    {
        match self.incoming.get(&target) {
            Some(list) => copy_list(list),
            None => Vec::new(),
        }
    }

    /// The pages that `source` links to; none where the table has no entry.
    pub fn get_outgoing_links(&self, source: u32) -> (targets: Vec<u32>)
        ensures
            targets@ == self.outgoing_of(source),
    {
        match self.outgoing.get(&source) {
            Some(list) => copy_list(list),
            None => Vec::new(),
        }
    }

    /// Adds the redirect from `source` to `target`. A page redirects once
    /// only: where `source` has a redirect already, nothing changes and the
    /// call fails.
    pub fn insert_redirect(&mut self, source: u32, target: u32) -> (done: Result<(), Error>)
        ensures
            done is Err <==> old(self).redirects@.contains_key(source),
            done matches Err(e) ==> e == Error::IntegrityViolation && *final(self) == *old(self),
            done is Ok ==> final(self).redirects@ == old(self).redirects@.insert(source, target),
            final(self).incoming == old(self).incoming,
            final(self).outgoing == old(self).outgoing,
            final(self).metadata == old(self).metadata,
    {
        match put_if_absent(self.get_redirect(source), target) {
            Ok(target) => {
                self.redirects.insert(source, target);
                Ok(())
            },
            Err(e) => Err(e),
        }
    }

    /// Adds `sources` to the pages that link to `target`, and keeps the list
    /// sorted and free of duplicates. Returns whether `target` had a list
    /// already.
    pub fn insert_links_incoming(&mut self, target: u32, sources: Vec<u32>) -> (appended: bool)
        ensures
            appended == old(self).incoming@.contains_key(target),
            inserted_into(old(self).incoming@, final(self).incoming@, target, sources@),
            final(self).redirects == old(self).redirects,
            final(self).outgoing == old(self).outgoing,
            final(self).metadata == old(self).metadata,
    {
        insert_links(&mut self.incoming, target, sources)
    }

    /// Adds `targets` to the pages that `source` links to, and keeps the list
    /// sorted and free of duplicates. Returns whether `source` had a list
    /// already.
    pub fn insert_links_outgoing(&mut self, source: u32, targets: Vec<u32>) -> (appended: bool)
        ensures
            appended == old(self).outgoing@.contains_key(source),
            inserted_into(old(self).outgoing@, final(self).outgoing@, source, targets@),
            final(self).redirects == old(self).redirects,
            final(self).incoming == old(self).incoming,
            final(self).metadata == old(self).metadata,
    {
        insert_links(&mut self.outgoing, source, targets)
    }

    /// Fills the outgoing table from the incoming table: afterwards the two
    /// hold the same links, and every outgoing list is strictly ascending.
    /// What the outgoing table held before is dropped.
    pub fn generate_outgoing_table(&mut self)
        ensures
            final(self).transposed(),
            forall|p: u32| #[trigger]
                final(self).outgoing@.contains_key(p) ==> strictly_ascending(
                    final(self).outgoing@[p]@,
                ),
            no_empty_list(final(self).outgoing@),
            final(self).redirects == old(self).redirects,
            final(self).incoming == old(self).incoming,
            final(self).metadata == old(self).metadata,
    {
        self.outgoing = transpose(&self.incoming);
        proof {
            crate::graph::lemma_reversed_twice(graph_of(self.incoming@));
        }
    }

    /// Whether the database is as a built database must be: the two tables
    /// hold the same links, every list is strictly ascending, no redirecting
    /// page has a list, and no redirect leads to a redirecting page.
    pub fn check_integrity(&self) -> (done: Result<(), Error>)
        ensures
            done is Ok <==> self.wf(),
            done matches Err(e) ==> e == Error::IntegrityViolation,
    {
        let sorted = all_sorted(&self.incoming) && all_sorted(&self.outgoing);
        let transparent = redirects_apart(&self.redirects, &self.incoming, &self.outgoing);
        let turned = transpose(&self.incoming);
        let same = sorted && same_tables(&turned, &self.outgoing);
        proof {
            crate::graph::lemma_reversed_twice(graph_of(self.incoming@));
            crate::graph::lemma_reversed_twice(graph_of(self.outgoing@));
            if sorted && same {
                assert(graph_of(turned@) =~= graph_of(self.outgoing@));
            }
            if self.transposed() && sorted {
                assert(graph_of(turned@) =~= graph_of(self.outgoing@));
            }
        }
        if same && transparent {
            Ok(())
        } else {
            Err(Error::IntegrityViolation)
        }
    }
}

} // verus!
