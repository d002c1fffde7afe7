//! Reading the rows of a dump table: the decompressed dump is cut into
//! chunks, each chunk starts with the end of the one before it, so that a row
//! that lies across the cut is whole in the later chunk, and a regular
//! expression picks the rows out of each chunk.

use crate::error::Table;
use vstd::prelude::*;
use vstd::slice::slice_subrange;

verus! {

/// The number of bytes of a chunk.
pub const CHUNK_SIZE: usize = 1048576;

/// The number of threads that look for rows, of `thread_count` threads in
/// all: one reads the file, the others look for rows, and at least one does.
pub open spec fn parsers_of(thread_count: usize) -> usize {
    if thread_count >= 2 {
        (thread_count - 1) as usize
    } else {
        1
    }
}

/// The number of threads that look for rows.
pub fn parser_count(thread_count: usize) -> (parsers: usize)
    ensures
        parsers == parsers_of(thread_count),
{
    if thread_count >= 2 {
        thread_count - 1
    } else {
        1
    }
}

/// The number of chunks that are in use at a time: two for each thread that
/// looks for rows, as far as that number fits.
pub fn chunk_count(thread_count: usize) -> (chunks: usize)
    ensures
        chunks == (if 2 * parsers_of(thread_count) <= usize::MAX {
            (2 * parsers_of(thread_count)) as usize
        } else {
            usize::MAX
        }),
{
    let parsers = parser_count(thread_count);
    parsers.saturating_add(parsers)
}

/// A row as the pattern of a table finds it: where the row starts and ends
/// in the bytes that were searched, and the two fields that the build reads.
#[derive(Debug, Clone, PartialEq, Eq)]
pub struct RawRow {
    pub first: Vec<u8>,
    pub second: Vec<u8>,
    /// The place of the first byte of the row.
    pub start: usize,
    /// The place behind the last byte of the row.
    pub end: usize,
}

impl RawRow {
    /// The two fields as plain bytes.
    pub open spec fn fields(&self) -> (Seq<u8>, Seq<u8>) {
        (self.first@, self.second@)
    }

    /// The row as plain values: its start, its end and its two fields.
    pub open spec fn hit(&self) -> (int, int, Seq<u8>, Seq<u8>) {
        (self.start as int, self.end as int, self.first@, self.second@)
    }
}

/// The fields of each row of `rows`.
pub open spec fn fields_of(rows: Seq<RawRow>) -> Seq<(Seq<u8>, Seq<u8>)> {
    rows.map_values(|row: RawRow| row.fields())
}

/// Each row of `rows` as plain values.
pub open spec fn hits_of(rows: Seq<RawRow>) -> Seq<(int, int, Seq<u8>, Seq<u8>)> {
    rows.map_values(|row: RawRow| row.hit())
}

/// The fields of each of `hits`.
pub open spec fn fields_of_hits(hits: Seq<(int, int, Seq<u8>, Seq<u8>)>) -> Seq<
    (Seq<u8>, Seq<u8>),
> {
    hits.map_values(|hit: (int, int, Seq<u8>, Seq<u8>)| (hit.2, hit.3))
}

/// The rows lie within `len` bytes, one behind the other: each starts where
/// the one before it ends or later, and ends later than it.
pub open spec fn in_order(hits: Seq<(int, int, Seq<u8>, Seq<u8>)>, len: int) -> bool {
    &&& forall|i: int| 0 <= i < hits.len() ==> 0 <= (#[trigger] hits[i]).0 <= hits[i].1 <= len
    &&& forall|i: int, j: int|
        0 <= i < j < hits.len() ==> (#[trigger] hits[i]).1 <= (#[trigger] hits[j]).0 && hits[i].1
            < hits[j].1
}

/// The rows lie within `len` bytes, and each ends later than the one before
/// it: no two of them are the same stretch of the bytes.
pub open spec fn ends_ascend(hits: Seq<(int, int, Seq<u8>, Seq<u8>)>, len: int) -> bool {
    &&& forall|i: int| 0 <= i < hits.len() ==> 0 <= (#[trigger] hits[i]).0 <= hits[i].1 <= len
    &&& forall|i: int, j: int|
        0 <= i < j < hits.len() ==> (#[trigger] hits[i]).1 < (#[trigger] hits[j]).1
}

/// The pattern of the rows of a table that are of interest: those of the
/// article namespace. It captures the two fields that the build reads.
pub fn pattern(table: Table) -> (text: &'static str)
    ensures
        text@ == pattern_text(table),
{
    match table {
        Table::Page => r"\(([0-9]{1,10}),0,'(.{0,255}?)',[01],[01],0.[0-9]{1,32}?,'[0-9]{14}',(?:'[0-9]{14}'|NULL),[0-9]{1,10},[0-9]{1,10},(?:'.{0,32}'|NULL),(?:'.{0,35}'|NULL)\)",
        Table::Redirect => r"\(([0-9]{1,10}),0,'(.{0,255}?)',(?:'.{0,32}'|NULL),(?:'.{0,255}'|NULL)\)",
        Table::LinkTarget => r"\(([0-9]{1,20}),0,'(.{0,255}?)'\)",
        Table::PageLinks => r"\(([0-9]{1,10}),0,([0-9]{1,20})\)",
    }
}

/// The text of the pattern of a table.
pub open spec fn pattern_text(table: Table) -> Seq<char> {
    match table {
        Table::Page => r"\(([0-9]{1,10}),0,'(.{0,255}?)',[01],[01],0.[0-9]{1,32}?,'[0-9]{14}',(?:'[0-9]{14}'|NULL),[0-9]{1,10},[0-9]{1,10},(?:'.{0,32}'|NULL),(?:'.{0,35}'|NULL)\)"@,
        Table::Redirect => r"\(([0-9]{1,10}),0,'(.{0,255}?)',(?:'.{0,32}'|NULL),(?:'.{0,255}'|NULL)\)"@,
        Table::LinkTarget => r"\(([0-9]{1,20}),0,'(.{0,255}?)'\)"@,
        Table::PageLinks => r"\(([0-9]{1,10}),0,([0-9]{1,20})\)"@,
    }
}

/// The greatest number of bytes that a row of the table takes, by the widths
/// of its columns.
pub open spec fn max_row_size(table: Table) -> nat {
    match table {
        Table::Page => 1 + 10 + 4 + 255 + 8 + 32 + 2 + 14 + 3 + 14 + 2 + 10 + 1 + 10 + 2 + 32 + 3
            + 35 + 2,
        Table::Redirect => 1 + 10 + 4 + 255 + 3 + 32 + 3 + 255 + 2,
        Table::LinkTarget => 1 + 20 + 4 + 255 + 2,
        Table::PageLinks => 1 + 10 + 3 + 20 + 1,
    }
}

/// The greatest number of bytes that a row of the table takes.
pub fn max_match_size(table: Table) -> (size: usize)
    ensures
        size == max_row_size(table),
        0 < size < CHUNK_SIZE,
{
    match table {
        Table::Page => 440,
        Table::Redirect => 565,
        Table::LinkTarget => 282,
        Table::PageLinks => 35,
    }
}

/// What the regular expression `pattern` finds in `haystack`: for each match,
/// from left to right, where the match starts, where it ends, and the bytes
/// of its first and of its second group; nothing at all where `pattern` is
/// not a regular expression.
pub uninterp spec fn regex_rows(pattern: Seq<char>, haystack: Seq<u8>) -> Option<
    Seq<(int, int, Seq<u8>, Seq<u8>)>,
>;

/// What `captures_in` returned, as plain values.
pub open spec fn found_hits(found: Option<Vec<RawRow>>) -> Option<
    Seq<(int, int, Seq<u8>, Seq<u8>)>,
> {
    match found {
        Some(rows) => Some(hits_of(rows@)),
        None => None,
    }
}

/// Compiles `pattern` with `regex::bytes::Regex::new` and walks over
/// `haystack` with `Regex::captures_iter`, taking from each match its start
/// and its end in the haystack and the bytes of groups 1 and 2 (none for a
/// group that took no part in the match).
///
/// Not proved here: that what comes back depends on the pattern and the
/// haystack alone, and that the matches are successive and do not overlap,
/// as the iterator promises: a match lies within the haystack, and the next
/// one is looked for from its end on, an empty match at that very place being
/// passed over, so that every match ends later than the one before it. What
/// the matches are is not stated; `regex_rows` is the name of the result.
#[verifier::external_body]
fn captures_in(pattern: &str, haystack: &[u8]) -> (found: Option<Vec<RawRow>>)
    ensures
        found_hits(found) == regex_rows(pattern@, haystack@),
        found matches Some(rows) ==> in_order(hits_of(rows@), haystack@.len() as int),
{
    let regex = regex::bytes::Regex::new(pattern).ok()?;
    Some(
        regex
            .captures_iter(haystack)
            .map(|found| RawRow {
                first: found.get(1).map_or(Vec::new(), |group| group.as_bytes().to_vec()),
                second: found.get(2).map_or(Vec::new(), |group| group.as_bytes().to_vec()),
                start: found.get_match().start(),
                end: found.get_match().end(),
            })
            .collect(),
    )
}

/// What the search of one chunk finds: what the pattern finds, and nothing
/// where the pattern is no regular expression.
pub open spec fn rows_found(pattern: Seq<char>, haystack: Seq<u8>) -> Seq<
    (int, int, Seq<u8>, Seq<u8>),
> {
    match regex_rows(pattern, haystack) {
        Some(rows) => rows,
        None => Seq::empty(),
    }
}

/// A row that ends at `end` in a chunk is new in that chunk, of which the
/// first `repeated` bytes repeat the end of the chunk before: it ends behind
/// the repeated bytes. In a chunk that repeats nothing every row is new.
pub open spec fn is_fresh(end: int, repeated: int) -> bool {
    repeated == 0 || end > repeated
}

/// Those of `hits` that are new in a chunk whose first `repeated` bytes
/// repeat the end of the chunk before, in their order.
pub open spec fn fresh(hits: Seq<(int, int, Seq<u8>, Seq<u8>)>, repeated: int) -> Seq<
    (int, int, Seq<u8>, Seq<u8>),
>
    decreases hits.len(),
{
    if hits.len() == 0 {
        Seq::empty()
    } else {
        let before = fresh(hits.drop_last(), repeated);
        if is_fresh(hits.last().1, repeated) {
            before.push(hits.last())
        } else {
            before
        }
    }
}

/// What is new is part of what was found: it is in the same order, it lies
/// within the same bytes, and each of its rows is new.
pub proof fn lemma_fresh_in_order(hits: Seq<(int, int, Seq<u8>, Seq<u8>)>, repeated: int, len: int)
    requires
        in_order(hits, len),
    ensures
        in_order(fresh(hits, repeated), len),
        forall|i: int|
            0 <= i < fresh(hits, repeated).len() ==> is_fresh(
                (#[trigger] fresh(hits, repeated)[i]).1,
                repeated,
            ),
        forall|i: int|
            0 <= i < fresh(hits, repeated).len() ==> hits.contains(
                #[trigger] fresh(hits, repeated)[i],
            ),
        hits.len() > 0 ==> forall|i: int|
            0 <= i < fresh(hits, repeated).len() ==> (#[trigger] fresh(hits, repeated)[i]).1
                <= hits.last().1,
    decreases hits.len(),
{
    if hits.len() > 0 {
        let shorter = hits.drop_last();
        assert(in_order(shorter, len)) by {
            assert forall|i: int| 0 <= i < shorter.len() implies 0 <= (#[trigger] shorter[i]).0
                <= shorter[i].1 <= len by {
                assert(shorter[i] == hits[i]);
            }
            assert forall|i: int, j: int| 0 <= i < j < shorter.len() implies (
            #[trigger] shorter[i]).1 <= (#[trigger] shorter[j]).0 && shorter[i].1
                < shorter[j].1 by {
                assert(shorter[i] == hits[i] && shorter[j] == hits[j]);
            }
        }
        lemma_fresh_in_order(shorter, repeated, len);
        let before = fresh(shorter, repeated);
        let all = fresh(hits, repeated);
        let last = hits.last();
        assert forall|i: int| 0 <= i < before.len() implies (#[trigger] before[i]).1 < last.1
            && before[i].1 <= last.0 && hits.contains(before[i]) by {
            assert(shorter.contains(before[i]));
            let k = choose|k: int| 0 <= k < shorter.len() && shorter[k] == before[i];
            assert(hits[k] == before[i]);
            assert(hits[k].1 <= hits[hits.len() - 1].0);
        }
        assert(hits.contains(last)) by {
            assert(hits[hits.len() - 1] == last);
        }
        assert forall|i: int| 0 <= i < all.len() implies hits.contains(#[trigger] all[i]) by {
            if i < before.len() {
                assert(all[i] == before[i]);
            }
        }
        assert forall|i: int| 0 <= i < all.len() implies (#[trigger] all[i]).1 <= last.1 by {
            if i < before.len() {
                assert(all[i] == before[i]);
            }
        }
        assert forall|i: int| 0 <= i < all.len() implies 0 <= (#[trigger] all[i]).0 <= all[i].1
            <= len by {
            if i < before.len() {
                assert(all[i] == before[i]);
            }
        }
        assert forall|i: int, j: int| 0 <= i < j < all.len() implies (#[trigger] all[i]).1 <= (
        #[trigger] all[j]).0 && all[i].1 < all[j].1 by {
            assert(all[i] == before[i]);
            if j < before.len() {
                assert(all[j] == before[j]);
            }
        }
        assert forall|i: int| 0 <= i < all.len() implies is_fresh((#[trigger] all[i]).1, repeated) by {
            if i < before.len() {
                assert(all[i] == before[i]);
            }
        }
    }
}

/// A copy of the row.
fn copy_row(row: &RawRow) -> (copy: RawRow)
    ensures
        copy.hit() == row.hit(),
{
    RawRow {
        first: crate::titles::copy_bytes(row.first.as_slice()),
        second: crate::titles::copy_bytes(row.second.as_slice()),
        start: row.start,
        end: row.end,
    }
}

/// The rows of the table that are new in one chunk, of which the first
/// `repeated` bytes repeat the end of the chunk before: the rows that the
/// pattern finds in the chunk and that end behind the repeated bytes. A row
/// that ends within them lay whole in the chunk before, and was handed out
/// there.
pub fn scan_chunk(table: Table, bytes: &[u8], repeated: usize) -> (rows: Vec<RawRow>)
    ensures
        hits_of(rows@) == fresh(rows_found(pattern_text(table), bytes@), repeated as int),
        in_order(hits_of(rows@), bytes@.len() as int),
        forall|i: int|
            0 <= i < rows@.len() ==> is_fresh((#[trigger] rows@[i]).end as int, repeated as int),
{
    let mut rows: Vec<RawRow> = Vec::new();
    match captures_in(pattern(table), bytes) {
        Some(found) => {
            let ghost all = hits_of(found@);
            let mut i: usize = 0;
            proof {
                assert(hits_of(rows@) =~= fresh(all.take(0), repeated as int));
            }
            while i < found.len()
                invariant
                    i <= found@.len(),
                    all == hits_of(found@),
                    hits_of(rows@) == fresh(all.take(i as int), repeated as int),
                decreases found@.len() - i,
            {
                proof {
                    assert(all.take(i + 1).drop_last() =~= all.take(i as int));
                    assert(all.take(i + 1).last() == found@[i as int].hit());
                }
                if repeated == 0 || found[i].end > repeated {
                    let ghost before = rows@;
                    let row = copy_row(&found[i]);
                    rows.push(row);
                    proof {
                        assert(hits_of(rows@) =~= hits_of(before).push(row.hit()));
                    }
                }
                i = i + 1;
            }
            proof {
                assert(all.take(found@.len() as int) =~= all);
                lemma_fresh_in_order(all, repeated as int, bytes@.len() as int);
            }
        },
        None => {
            proof {
                assert(hits_of(rows@) =~= Seq::empty());
            }
        },
    }
    proof {
        assert forall|i: int| 0 <= i < rows@.len() implies is_fresh(
            (#[trigger] rows@[i]).end as int,
            repeated as int,
        ) by {
            assert(hits_of(rows@)[i] == rows@[i].hit());
        }
    }
    rows
}

/// A buffer of bytes of which the first `end` are in use, and of these the
/// first `carried` repeat the end of the buffer before.
#[derive(Debug)]
pub struct Chunk {
    pub data: Vec<u8>,
    pub end: usize,
    pub carried: usize,
}

/// The number of bytes that a chunk takes over from one of `used` bytes.
pub open spec fn overlap_len(used: int, max_match_size: int) -> int {
    if used >= max_match_size {
        max_match_size
    } else {
        used
    }
}

impl Chunk {
    /// No more bytes are in use than the buffer has, and no more are
    /// repeated than are in use.
    pub open spec fn wf(&self) -> bool {
        self.carried <= self.end <= self.data@.len()
    }

    /// The bytes in use.
    pub open spec fn bytes(&self) -> Seq<u8> {
        self.data@.take(self.end as int)
    }

    /// A chunk of `capacity` bytes, none of them in use.
    pub fn new(capacity: usize) -> (chunk: Chunk)
        ensures
            chunk.wf(),
            chunk.data@.len() == capacity,
            chunk.end == 0,
            chunk.carried == 0,
    {
        let mut data: Vec<u8> = Vec::new();
        let mut i: usize = 0;
        while i < capacity
            invariant
                i <= capacity,
                data@.len() == i,
            decreases capacity - i,
        {
            data.push(0);
            i = i + 1;
        }
        Chunk { data, end: 0, carried: 0 }
    }

    /// The bytes in use.
    pub fn valid(&self) -> (bytes: &[u8])
        requires
            self.wf(),
        ensures
            bytes@ == self.bytes(),
    {
        slice_subrange(self.data.as_slice(), 0, self.end)
    }

    /// Starts the chunk afresh with the end of `prev`: its last
    /// `max_match_size` bytes in use, or all of them where it has fewer.
    /// Returns how many bytes these are.
    pub fn carry_over(&mut self, prev: &Chunk, max_match_size: usize) -> (overlap: usize)
        requires
            prev.wf(),
            overlap_len(prev.end as int, max_match_size as int) <= old(self).data@.len(),
        ensures
            overlap == overlap_len(prev.end as int, max_match_size as int),
            final(self).wf(),
            final(self).end == overlap,
            final(self).carried == overlap,
            final(self).data@.len() == old(self).data@.len(),
            final(self).bytes() == prev.bytes().skip(prev.end - overlap),
    {
        let overlap_start: usize = if prev.end >= max_match_size {
            prev.end - max_match_size
        } else {
            0
        };
        let overlap: usize = prev.end - overlap_start;
        let mut i: usize = 0;
        while i < overlap
            invariant
                i <= overlap,
                overlap == prev.end - overlap_start,
                prev.wf(),
                overlap <= self.data@.len(),
                self.data@.len() == old(self).data@.len(),
                forall|j: int| 0 <= j < i ==> self.data@[j] == prev.data@[overlap_start + j],
            decreases overlap - i,
        {
            self.data.set(i, prev.data[overlap_start + i]);
            i = i + 1;
        }
        self.end = overlap;
        self.carried = overlap;
        assert(self.bytes() =~= prev.bytes().skip(prev.end - overlap));
        overlap
    }

    /// Puts `fresh` behind the bytes in use.
    pub fn append(&mut self, fresh: &[u8])
        requires
            old(self).wf(),
            old(self).end + fresh@.len() <= old(self).data@.len(),
        ensures
            final(self).wf(),
            final(self).data@.len() == old(self).data@.len(),
            final(self).carried == old(self).carried,
            final(self).bytes() == old(self).bytes() + fresh@,
    {
        let start: usize = self.end;
        let capacity: usize = self.data.len();
        let mut i: usize = 0;
        while i < fresh.len()
            invariant
                i <= fresh@.len(),
                capacity == self.data@.len(),
                start == old(self).end,
                self.end == start,
                self.carried == old(self).carried,
                start + fresh@.len() <= self.data@.len(),
                self.data@.len() == old(self).data@.len(),
                forall|j: int| 0 <= j < start ==> self.data@[j] == old(self).data@[j],
                forall|j: int| 0 <= j < i ==> self.data@[start + j] == fresh@[j],
            decreases fresh@.len() - i,
        {
            self.data.set(start + i, fresh[i]);
            i = i + 1;
        }
        self.end = start + fresh.len();
        assert(self.bytes() =~= old(self).bytes() + fresh@);
    }

    /// The rows of the table that are new in the chunk.
    pub fn rows(&self, table: Table) -> (rows: Vec<RawRow>)
        requires
            self.wf(),
        ensures
            hits_of(rows@) == fresh(
                rows_found(pattern_text(table), self.bytes()),
                self.carried as int,
            ),
            in_order(hits_of(rows@), self.end as int),
            forall|i: int|
                0 <= i < rows@.len() ==> is_fresh(
                    (#[trigger] rows@[i]).end as int,
                    self.carried as int,
                ),
    {
        scan_chunk(table, self.valid(), self.carried)
    }
}

/// The part of the stream that the chunk after the chunk `[lo, hi)` holds,
/// in a stream of `len` bytes cut into chunks of `chunk_size`: the end of the
/// chunk before it, then as many new bytes as fit.
pub open spec fn window_after(
    lo: int,
    hi: int,
    len: int,
    chunk_size: int,
    max_match_size: int,
) -> (int, int) {
    let start = hi - overlap_len(hi - lo, max_match_size);
    if start + chunk_size <= len {
        (start, start + chunk_size)
    } else {
        (start, len)
    }
}

/// The parts of the stream that the chunks after the chunk `[lo, hi)` hold,
/// in turn. There is none once the stream is used up.
pub open spec fn windows_from(
    lo: int,
    hi: int,
    len: int,
    chunk_size: int,
    max_match_size: int,
) -> Seq<(int, int)>
    decreases len - hi,
{
    if hi >= len || chunk_size <= max_match_size || max_match_size < 0 || lo > hi {
        Seq::empty()
    } else {
        let next = window_after(lo, hi, len, chunk_size, max_match_size);
        seq![next] + windows_from(next.0, next.1, len, chunk_size, max_match_size)
    }
}

/// The parts of a stream of `len` bytes that its chunks hold, in turn.
pub open spec fn windows(len: int, chunk_size: int, max_match_size: int) -> Seq<(int, int)> {
    windows_from(0, 0, len, chunk_size, max_match_size)
}

/// The number of bytes at the start of the part `k` that the part before it
/// holds too, where the part before the first ends at `first`.
pub open spec fn repeated_in(parts: Seq<(int, int)>, first: int, k: int) -> int {
    if k == 0 {
        first - parts[0].0
    } else {
        parts[k - 1].1 - parts[k].0
    }
}

/// `hits` with their places counted from the start of the stream, for a part
/// of the stream that starts at `lo`.
pub open spec fn shifted(hits: Seq<(int, int, Seq<u8>, Seq<u8>)>, lo: int) -> Seq<
    (int, int, Seq<u8>, Seq<u8>),
> {
    hits.map_values(|hit: (int, int, Seq<u8>, Seq<u8>)| (hit.0 + lo, hit.1 + lo, hit.2, hit.3))
}

/// The rows that are handed out for the last of the parts `parts` of `data`:
/// those that the pattern finds in it and that are new in it, with their
/// places in the stream.
pub open spec fn hits_of_last(pattern: Seq<char>, data: Seq<u8>, parts: Seq<(int, int)>) -> Seq<
    (int, int, Seq<u8>, Seq<u8>),
> {
    let k = parts.len() - 1;
    shifted(
        fresh(
            rows_found(pattern, data.subrange(parts[k].0, parts[k].1)),
            repeated_in(parts, 0, k),
        ),
        parts[k].0,
    )
}

/// The rows that are handed out for the parts `parts` of `data`, part after
/// part: of each part the rows that are new in it.
pub open spec fn hits_in(pattern: Seq<char>, data: Seq<u8>, parts: Seq<(int, int)>) -> Seq<
    (int, int, Seq<u8>, Seq<u8>),
>
    decreases parts.len(),
{
    if parts.len() == 0 {
        Seq::empty()
    } else {
        hits_in(pattern, data, parts.drop_last()) + hits_of_last(pattern, data, parts)
    }
}

/// The fields of the rows that are handed out for the parts `parts` of
/// `data`, part after part.
pub open spec fn rows_in(pattern: Seq<char>, data: Seq<u8>, parts: Seq<(int, int)>) -> Seq<
    (Seq<u8>, Seq<u8>),
> {
    fields_of_hits(hits_in(pattern, data, parts))
}

/// The piece `[from, to)` of the stream is handed out with the part `k`: it
/// lies whole in that part and ends behind the bytes that the part repeats.
pub open spec fn handed_out(
    parts: Seq<(int, int)>,
    first: int,
    k: int,
    from: int,
    to: int,
) -> bool {
    &&& parts[k].0 <= from
    &&& to <= parts[k].1
    &&& is_fresh(to - parts[k].0, repeated_in(parts, first, k))
}

/// Every piece of the stream that is no longer than the greatest row is
/// handed out with exactly one of the chunks, wherever the cuts between the
/// chunks fall: a row across a cut is neither lost nor handed out twice.
pub proof fn lemma_chunks_cover(
    len: int,
    chunk_size: int,
    max_match_size: int,
    from: int,
    to: int,
) -> (k: int)
    requires
        0 < max_match_size < chunk_size,
        0 <= from < to <= len,
        to - from <= max_match_size,
    ensures
        0 <= k < windows(len, chunk_size, max_match_size).len(),
        handed_out(windows(len, chunk_size, max_match_size), 0, k, from, to),
        forall|j: int|
            0 <= j < windows(len, chunk_size, max_match_size).len() && j != k ==> !handed_out(
                windows(len, chunk_size, max_match_size),
                0,
                j,
                from,
                to,
            ),
{
    lemma_chunks_cover_from(0, 0, len, chunk_size, max_match_size, from, to)
}

/// The chunks after a chunk `[lo, hi)` that is full hand out no piece that
/// ends in it.
proof fn lemma_not_handed_out_later(
    lo: int,
    hi: int,
    len: int,
    chunk_size: int,
    max_match_size: int,
    from: int,
    to: int,
)
    requires
        0 < max_match_size < chunk_size,
        0 <= lo <= hi <= len,
        hi - lo == chunk_size,
        to <= hi,
    ensures
        forall|j: int|
            0 <= j < windows_from(lo, hi, len, chunk_size, max_match_size).len() ==> !handed_out(
                windows_from(lo, hi, len, chunk_size, max_match_size),
                hi,
                j,
                from,
                to,
            ),
    decreases len - hi,
{
    let parts = windows_from(lo, hi, len, chunk_size, max_match_size);
    if hi < len {
        let next = window_after(lo, hi, len, chunk_size, max_match_size);
        let rest = windows_from(next.0, next.1, len, chunk_size, max_match_size);
        assert(parts =~= seq![next] + rest);
        assert(parts[0] == next);
        if next.1 < len {
            lemma_not_handed_out_later(next.0, next.1, len, chunk_size, max_match_size, from, to);
        }
        assert forall|j: int| 0 <= j < parts.len() implies !handed_out(parts, hi, j, from, to) by {
            if j > 0 {
                assert(parts[j] == rest[j - 1]);
                if j > 1 {
                    assert(parts[j - 1] == rest[j - 2]);
                }
                assert(repeated_in(parts, hi, j) == repeated_in(rest, next.1, j - 1));
                assert(!handed_out(rest, next.1, j - 1, from, to));
            }
        }
    }
}

/// The same of the chunks after the chunk `[lo, hi)`, for a piece that ends
/// behind it, where that chunk is full or the stream starts with the next.
proof fn lemma_chunks_cover_from(
    lo: int,
    hi: int,
    len: int,
    chunk_size: int,
    max_match_size: int,
    from: int,
    to: int,
) -> (k: int)
    requires
        0 < max_match_size < chunk_size,
        0 <= lo <= hi <= len,
        hi - lo == chunk_size || (lo == 0 && hi == 0),
        0 <= from < to <= len,
        to - from <= max_match_size,
        hi < to,
    ensures
        0 <= k < windows_from(lo, hi, len, chunk_size, max_match_size).len(),
        handed_out(windows_from(lo, hi, len, chunk_size, max_match_size), hi, k, from, to),
        forall|j: int|
            0 <= j < windows_from(lo, hi, len, chunk_size, max_match_size).len() && j != k
                ==> !handed_out(
                windows_from(lo, hi, len, chunk_size, max_match_size),
                hi,
                j,
                from,
                to,
            ),
    decreases len - hi,
{
    let parts = windows_from(lo, hi, len, chunk_size, max_match_size);
    let next = window_after(lo, hi, len, chunk_size, max_match_size);
    let rest = windows_from(next.0, next.1, len, chunk_size, max_match_size);
    assert(parts =~= seq![next] + rest);
    assert(parts[0] == next);
    assert forall|j: int| 1 <= j < parts.len() implies parts[j] == rest[j - 1] && repeated_in(
        parts,
        hi,
        j,
    ) == repeated_in(rest, next.1, j - 1) by {
        assert(parts[j] == rest[j - 1]);
        if j > 1 {
            assert(parts[j - 1] == rest[j - 2]);
        }
    }
    if to <= next.1 {
        if next.1 < len {
            lemma_not_handed_out_later(next.0, next.1, len, chunk_size, max_match_size, from, to);
        }
        assert forall|j: int| 0 <= j < parts.len() && j != 0 implies !handed_out(
            parts,
            hi,
            j,
            from,
            to,
        ) by {
            assert(!handed_out(rest, next.1, j - 1, from, to));
        }
        0
    } else {
        let k = lemma_chunks_cover_from(
            next.0,
            next.1,
            len,
            chunk_size,
            max_match_size,
            from,
            to,
        );
        assert(handed_out(rest, next.1, k, from, to));
        assert forall|j: int| 0 <= j < parts.len() && j != k + 1 implies !handed_out(
            parts,
            hi,
            j,
            from,
            to,
        ) by {
            if j > 0 {
                assert(!handed_out(rest, next.1, j - 1, from, to));
            }
        }
        k + 1
    }
}

/// A copy of the row with its place counted from `lo` bytes earlier.
fn shift_row(row: &RawRow, lo: usize) -> (moved: RawRow)
    requires
        row.end + lo <= usize::MAX,
        row.start <= row.end,
    ensures
        moved.hit() == (row.start + lo, row.end + lo, row.first@, row.second@),
{
    RawRow {
        first: crate::titles::copy_bytes(row.first.as_slice()),
        second: crate::titles::copy_bytes(row.second.as_slice()),
        start: row.start + lo,
        end: row.end + lo,
    }
}

/// The rows of a table in a decompressed dump, found chunk by chunk: of each
/// chunk the rows that are new in it, with their places in the dump. The rows
/// come in the order in which they end in the dump, and no two of them end at
/// the same place: no stretch of the dump is handed out twice.
pub fn scan_bytes(table: Table, data: &[u8], chunk_size: usize) -> (rows: Vec<RawRow>)
    requires
        chunk_size > max_row_size(table),
    ensures
        hits_of(rows@) == hits_in(
            pattern_text(table),
            data@,
            windows(data@.len() as int, chunk_size as int, max_row_size(table) as int),
        ),
        fields_of(rows@) == rows_in(
            pattern_text(table),
            data@,
            windows(data@.len() as int, chunk_size as int, max_row_size(table) as int),
        ),
        ends_ascend(hits_of(rows@), data@.len() as int),
{
    let max_match: usize = max_match_size(table);
    let ghost all = windows(data@.len() as int, chunk_size as int, max_match as int);
    let ghost mut done: Seq<(int, int)> = Seq::empty();
    let ghost mut lo: int = 0;
    let mut rows: Vec<RawRow> = Vec::new();
    let mut prev = Chunk::new(chunk_size);
    let mut cur = Chunk::new(chunk_size);
    let mut pos: usize = 0;
    proof {
        assert(hits_of(rows@) =~= Seq::empty());
        assert(prev.bytes() =~= data@.subrange(0, 0));
    }
    while pos < data.len()
        invariant
            pos <= data@.len(),
            0 <= lo <= pos,
            max_match == max_row_size(table),
            0 < max_match < chunk_size,
            prev.wf(),
            prev.data@.len() == chunk_size,
            cur.data@.len() == chunk_size,
            prev.end == pos - lo,
            prev.bytes() == data@.subrange(lo, pos as int),
            done.len() == 0 ==> lo == 0 && pos == 0,
            done.len() > 0 ==> done.last() == (lo, pos as int) && lo < pos,
            all == done + windows_from(
                lo,
                pos as int,
                data@.len() as int,
                chunk_size as int,
                max_match as int,
            ),
            hits_of(rows@) == hits_in(pattern_text(table), data@, done),
            done.len() == 0 ==> rows@.len() == 0,
            ends_ascend(hits_of(rows@), pos as int),
        decreases data@.len() - pos,
    {
        let ghost next = window_after(
            lo,
            pos as int,
            data@.len() as int,
            chunk_size as int,
            max_match as int,
        );
        let overlap: usize = cur.carry_over(&prev, max_match);
        let start: usize = pos - overlap;
        let space: usize = chunk_size - overlap;
        let left: usize = data.len() - pos;
        let take: usize = if space < left {
            space
        } else {
            left
        };
        cur.append(slice_subrange(data, pos, pos + take));
        proof {
            assert(next == (pos - overlap, pos + take));
            assert(cur.bytes() =~= data@.subrange(next.0, next.1));
        }
        let found = cur.rows(table);
        let ghost rows_before = rows@;
        let ghost longer = done.push(next);
        let ghost fresh_hits = hits_of(found@);
        proof {
            assert(longer.drop_last() =~= done);
            assert(repeated_in(longer, 0, longer.len() - 1) == overlap) by {
                if done.len() > 0 {
                    assert(longer[longer.len() - 2] == done.last());
                }
            }
            assert(hits_of_last(pattern_text(table), data@, longer) == shifted(
                fresh_hits,
                start as int,
            ));
        }
        let mut i: usize = 0;
        while i < found.len()
            invariant
                i <= found@.len(),
                fresh_hits == hits_of(found@),
                in_order(fresh_hits, cur.end as int),
                start + cur.end == pos + take,
                pos + take <= data@.len() <= usize::MAX,
                hits_of(rows@) == hits_of(rows_before) + shifted(fresh_hits, start as int).take(
                    i as int,
                ),
            decreases found@.len() - i,
        {
            let ghost before = rows@;
            proof {
                assert(fresh_hits[i as int] == found@[i as int].hit());
                assert(0 <= fresh_hits[i as int].0 <= fresh_hits[i as int].1 <= cur.end);
            }
            let moved = shift_row(&found[i], start);
            rows.push(moved);
            proof {
                let part = shifted(fresh_hits, start as int);
                assert(part.take(i + 1) =~= part.take(i as int).push(part[i as int]));
                assert(hits_of(rows@) =~= hits_of(before).push(moved.hit()));
                assert(hits_of(rows@) =~= hits_of(rows_before) + part.take(i + 1));
            }
            i = i + 1;
        }
        proof {
            let part = shifted(fresh_hits, start as int);
            assert(part.take(found@.len() as int) =~= part);
            let old_hits = hits_of(rows_before);
            let new_hits = hits_of(rows@);
            assert(new_hits == old_hits + part);
            // What is new in the chunk ends behind everything handed out so far.
            assert forall|a: int| 0 <= a < part.len() implies (old_hits.len() > 0 ==> pos < (
            #[trigger] part[a]).1) && part[a].1 <= pos + take && 0 <= part[a].0 <= part[a].1 by {
                assert(part[a].1 == fresh_hits[a].1 + start);
                assert(part[a].0 == fresh_hits[a].0 + start);
                assert(is_fresh(found@[a].end as int, cur.carried as int));
                assert(fresh_hits[a] == found@[a].hit());
                assert(0 <= fresh_hits[a].0 <= fresh_hits[a].1 <= cur.end);
            }
            assert(ends_ascend(new_hits, pos + take)) by {
                assert forall|a: int| 0 <= a < new_hits.len() implies 0 <= (#[trigger] new_hits[a]).0
                    <= new_hits[a].1 <= pos + take by {
                    if a < old_hits.len() {
                        assert(new_hits[a] == old_hits[a]);
                    } else {
                        assert(new_hits[a] == part[a - old_hits.len()]);
                    }
                }
                assert forall|a: int, b: int| 0 <= a < b < new_hits.len() implies (
                #[trigger] new_hits[a]).1 < (#[trigger] new_hits[b]).1 by {
                    if b < old_hits.len() {
                        assert(new_hits[a] == old_hits[a] && new_hits[b] == old_hits[b]);
                    } else if a < old_hits.len() {
                        assert(new_hits[a] == old_hits[a]);
                        assert(new_hits[b] == part[b - old_hits.len()]);
                    } else {
                        let x = a - old_hits.len();
                        let y = b - old_hits.len();
                        assert(new_hits[a] == part[x] && new_hits[b] == part[y]);
                        assert(part[x].1 == fresh_hits[x].1 + start);
                        assert(part[y].1 == fresh_hits[y].1 + start);
                        assert(fresh_hits[x].1 < fresh_hits[y].1);
                    }
                }
            }
            let rest = windows_from(
                next.0,
                next.1,
                data@.len() as int,
                chunk_size as int,
                max_match as int,
            );
            assert(done + (seq![next] + rest) =~= longer + rest);
            done = longer;
            lo = next.0;
        }
        pos = pos + take;
        std::mem::swap(&mut prev, &mut cur);
    }
    proof {
        assert(all =~= done);
        lemma_fields_of_hits(rows@);
    }
    rows
}

/// The fields of rows are the fields of the rows as plain values.
pub proof fn lemma_fields_of_hits(rows: Seq<RawRow>)
    ensures
        fields_of(rows) == fields_of_hits(hits_of(rows)),
{
    assert(fields_of(rows) =~= fields_of_hits(hits_of(rows)));
}

} // verus!
