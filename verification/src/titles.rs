//! The page table of a build: the id of each article, by its title.
//!
//! The table is a map from the hash of a title to the titles that have it.
//! Of a map of the standard library that is keyed by an integer Verus knows
//! what it holds after each call; of one keyed by the bytes of a title it
//! knows nothing. So the titles hang under a number, and what the table holds
//! is proved here.

use std::collections::HashMap;
use vstd::prelude::*;
use vstd::std_specs::hash::*;

verus! {

broadcast use vstd::std_specs::hash::group_hash_axioms;

/// A title and the id of the page that has it.
pub struct TitleEntry {
    pub title: Vec<u8>,
    pub id: u32,
}

/// The modulus of the hash of a title: the greatest prime below 2^32.
pub const HASH_MODULUS: u64 = 4294967291;

/// The hash of a title.
pub open spec fn title_hash(title: Seq<u8>) -> u64
    decreases title.len(),
{
    if title.len() == 0 {
        7
    } else {
        ((title_hash(title.drop_last()) * 31 + title.last()) % (HASH_MODULUS as int)) as u64
    }
}

/// The id of the first entry of `list` that has the title, if one has it.
pub open spec fn find_in(list: Seq<TitleEntry>, title: Seq<u8>) -> Option<u32>
    decreases list.len(),
{
    if list.len() == 0 {
        None
    } else if list.first().title@ == title {
        Some(list.first().id)
    } else {
        find_in(list.drop_first(), title)
    }
}

/// The id under which the buckets hold the title, if they hold it.
pub open spec fn lookup(buckets: Map<u64, Vec<TitleEntry>>, title: Seq<u8>) -> Option<u32> {
    if buckets.contains_key(title_hash(title)) {
        find_in(buckets[title_hash(title)]@, title)
    } else {
        None
    }
}

/// The ids of pages by their titles. A title keeps the id that it was first
/// given.
pub struct TitleMap {
    pub buckets: HashMap<u64, Vec<TitleEntry>>,
    pub titles: usize,
    pub witness: Ghost<Seq<u8>>,
}

impl View for TitleMap {
    type V = Map<Seq<u8>, u32>;

    open spec fn view(&self) -> Map<Seq<u8>, u32> {
        Map::new(
            |title: Seq<u8>| lookup(self.buckets@, title) is Some,
            |title: Seq<u8>| lookup(self.buckets@, title)->0,
        )
    }
}

/// Whether the two slices hold the same bytes.
pub fn same_bytes(a: &[u8], b: &[u8]) -> (same: bool)
    ensures
        same == (a@ == b@),
{
    if a.len() != b.len() {
        return false;
    }
    let mut i: usize = 0;
    while i < a.len()
        invariant
            i <= a@.len(),
            a@.len() == b@.len(),
            forall|j: int| 0 <= j < i ==> a@[j] == b@[j],
        decreases a@.len() - i,
    {
        if a[i] != b[i] {
            return false;
        }
        i = i + 1;
    }
    assert(a@ =~= b@);
    true
}

/// A copy of the bytes.
pub fn copy_bytes(bytes: &[u8]) -> (copy: Vec<u8>)
    ensures
        copy@ == bytes@,
{
    let mut copy: Vec<u8> = Vec::new();
    let mut i: usize = 0;
    while i < bytes.len()
        invariant
            i <= bytes@.len(),
            copy@ == bytes@.take(i as int),
        decreases bytes@.len() - i,
    {
        copy.push(bytes[i]);
        assert(bytes@.take(i + 1) =~= bytes@.take(i as int).push(bytes@[i as int]));
        i = i + 1;
    }
    assert(bytes@.take(bytes@.len() as int) =~= bytes@);
    copy
}

/// The hash of a title.
pub fn hash_title(title: &[u8]) -> (hash: u64)
    ensures
        hash == title_hash(title@),
{
    let mut hash: u64 = 7;
    let mut i: usize = 0;
    while i < title.len()
        invariant
            i <= title@.len(),
            hash == title_hash(title@.take(i as int)),
            hash < 0x1_0000_0000,
        decreases title@.len() - i,
    {
        assert(title@.take(i + 1).drop_last() =~= title@.take(i as int));
        hash = (hash * 31 + title[i] as u64) % HASH_MODULUS;
        i = i + 1;
    }
    assert(title@.take(title@.len() as int) =~= title@);
    hash
}

/// The id of the first entry of the list that has the title.
fn find_entry(list: &Vec<TitleEntry>, title: &[u8]) -> (id: Option<u32>)
    ensures
        id == find_in(list@, title@),
{
    let mut i: usize = 0;
    assert(list@.skip(0) =~= list@);
    while i < list.len()
        invariant
            i <= list@.len(),
            find_in(list@, title@) == find_in(list@.skip(i as int), title@),
        decreases list@.len() - i,
    {
        if same_bytes(list[i].title.as_slice(), title) {
            assert(list@.skip(i as int).first() == list@[i as int]);
            return Some(list[i].id);
        }
        assert(list@.skip(i as int).drop_first() =~= list@.skip(i + 1));
        assert(list@.skip(i as int).first() == list@[i as int]);
        i = i + 1;
    }
    assert(list@.skip(list@.len() as int) =~= Seq::<TitleEntry>::empty());
    None
}

/// An entry behind a list changes what is found only for its own title, and
/// only where the list did not hold that title.
proof fn lemma_find_after_push(list: Seq<TitleEntry>, entry: TitleEntry, title: Seq<u8>)
    ensures
        find_in(list.push(entry), title) == (if find_in(list, title) is Some {
            find_in(list, title)
        } else if entry.title@ == title {
            Some(entry.id)
        } else {
            None
        }),
    decreases list.len(),
{
    let longer = list.push(entry);
    assert(longer.len() == list.len() + 1);
    if list.len() == 0 {
        assert(longer.first() == entry);
        assert(longer.drop_first() =~= Seq::<TitleEntry>::empty());
        assert(find_in(longer.drop_first(), title) is None);
        assert(find_in(list, title) is None);
    } else {
        assert(longer.first() == list.first());
        assert(longer.drop_first() =~= list.drop_first().push(entry));
        if list.first().title@ != title {
            lemma_find_after_push(list.drop_first(), entry, title);
            assert(find_in(longer, title) == find_in(longer.drop_first(), title));
            assert(find_in(list, title) == find_in(list.drop_first(), title));
        } else {
            assert(find_in(longer, title) == Some(list.first().id));
            assert(find_in(list, title) == Some(list.first().id));
        }
    }
}

impl TitleMap {
    /// The count of titles is zero exactly where the table is empty.
    pub open spec fn wf(&self) -> bool {
        &&& self.titles == 0 ==> self.buckets@ =~= Map::<u64, Vec<TitleEntry>>::empty()
        &&& self.titles > 0 ==> self@.contains_key(self.witness@)
    }

    /// A table without titles.
    pub fn new() -> (table: TitleMap)
        ensures
            table.wf(),
            table@ == Map::<Seq<u8>, u32>::empty(),
    {
        let table = TitleMap { buckets: HashMap::new(), titles: 0, witness: Ghost(Seq::empty()) };
        assert(table@ =~= Map::<Seq<u8>, u32>::empty());
        table
    }

    /// The id of the page with the title, if the table holds the title.
    pub fn get(&self, title: &[u8]) -> (id: Option<u32>)
        ensures
            id == (if self@.contains_key(title@) {
                Some(self@[title@])
            } else {
                None
            }),
    {
        let hash = hash_title(title);
        match self.buckets.get(&hash) {
            Some(list) => find_entry(list, title),
            None => None,
        }
    }

    /// Whether the table holds no title.
    pub fn is_empty(&self) -> (empty: bool)
        requires
            self.wf(),
        ensures
            empty == (self@ == Map::<Seq<u8>, u32>::empty()),
    {
        proof {
            if self.titles == 0 {
                assert(self@ =~= Map::<Seq<u8>, u32>::empty());
            }
        }
        self.titles == 0
    }

    /// Gives the title the id, unless the title has an id already. Returns
    /// whether the title was new.
    pub fn insert_first(&mut self, title: Vec<u8>, id: u32) -> (added: bool)
        requires
            old(self).wf(),
        ensures
            final(self).wf(),
            added == !old(self)@.contains_key(title@),
            final(self)@ == (if added {
                old(self)@.insert(title@, id)
            } else {
                old(self)@
            }),
    {
        let hash = hash_title(title.as_slice());
        let ghost before = self.buckets@;
        let ghost key = title@;
        let mut list = match self.buckets.remove(&hash) {
            Some(list) => list,
            None => Vec::new(),
        };
        let ghost old_list = list@;
        let known = find_entry(&list, title.as_slice());
        let added = known.is_none();
        if added {
            let entry = TitleEntry { title, id };
            proof {
                assert forall|other: Seq<u8>|
                    find_in(old_list.push(entry), other) == (if find_in(old_list, other) is Some {
                        find_in(old_list, other)
                    } else if key == other {
                        Some(id)
                    } else {
                        None
                    }) by {
                    lemma_find_after_push(old_list, entry, other);
                }
            }
            list.push(entry);
            if self.titles < usize::MAX {
                self.titles = self.titles + 1;
            }
            proof {
                self.witness@ = key;
            }
        }
        self.buckets.insert(hash, list);
        proof {
            let after = self.buckets@;
            assert forall|other: Seq<u8>|
                lookup(after, other) == (if added && other == key {
                    Some(id)
                } else {
                    lookup(before, other)
                }) by {
                if title_hash(other) == hash {
                    if !before.contains_key(hash) {
                        assert(old_list =~= Seq::<TitleEntry>::empty());
                    }
                }
            }
            if added {
                assert(self@ =~= old(self)@.insert(key, id));
            } else {
                assert(self@ =~= old(self)@);
                if old(self).titles == 0 {
                    assert(!before.contains_key(hash));
                }
            }
        }
        added
    }
}

} // verus!
