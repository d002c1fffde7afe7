//! What the rows of the four dump tables mean: a page and its title, a
//! redirect, a link target, a link. A row that cannot be read, or that names
//! something unknown, is passed over.

use crate::redirects::next_page;
use crate::scan::RawRow;
use crate::titles::TitleMap;
use std::collections::HashMap;
use vstd::prelude::*;
use vstd::std_specs::hash::*;

verus! {

broadcast use vstd::std_specs::hash::group_hash_axioms;

/// The byte is a decimal digit.
pub open spec fn is_digit(b: u8) -> bool {
    48 <= b <= 57
}

/// Every byte is a decimal digit.
pub open spec fn all_digits(digits: Seq<u8>) -> bool {
    forall|i: int| 0 <= i < digits.len() ==> is_digit(#[trigger] digits[i])
}

/// The number that the decimal digits write.
pub open spec fn digits_value(digits: Seq<u8>) -> nat
    decreases digits.len(),
{
    if digits.len() == 0 {
        0
    } else {
        digits_value(digits.drop_last()) * 10 + (digits.last() - 48) as nat
    }
}

/// The number that the bytes write in decimal digits, where they write one
/// that is at most `max`.
pub open spec fn number_of(digits: Seq<u8>, max: nat) -> Option<nat> {
    if digits.len() > 0 && all_digits(digits) && digits_value(digits) <= max {
        Some(digits_value(digits))
    } else {
        None
    }
}

/// More digits write no smaller a number.
proof fn lemma_digits_grow(digits: Seq<u8>, i: int)
    requires
        0 <= i <= digits.len(),
        all_digits(digits),
    ensures
        digits_value(digits.take(i)) <= digits_value(digits),
    decreases digits.len() - i,
{
    if i < digits.len() {
        lemma_digits_grow(digits, i + 1);
        assert(digits.take(i + 1).drop_last() =~= digits.take(i));
        assert(is_digit(digits[i]));
    } else {
        assert(digits.take(i) =~= digits);
    }
}

/// The number that the bytes write, where they are decimal digits of a
/// number that fits.
pub fn parse_u64(digits: &[u8]) -> (number: Option<u64>)
    ensures
        number is Some <==> number_of(digits@, u64::MAX as nat) is Some,
        number matches Some(n) ==> number_of(digits@, u64::MAX as nat) == Some(n as nat),
{
    if digits.len() == 0 {
        return None;
    }
    let mut value: u64 = 0;
    let mut i: usize = 0;
    while i < digits.len()
        invariant
            i <= digits@.len(),
            forall|j: int| 0 <= j < i ==> is_digit(#[trigger] digits@[j]),
            value == digits_value(digits@.take(i as int)),
        decreases digits@.len() - i,
    {
        let b: u8 = digits[i];
        if b < 48 || b > 57 {
            return None;
        }
        proof {
            assert(digits@.take(i + 1).drop_last() =~= digits@.take(i as int));
        }
        let shifted = match value.checked_mul(10) {
            Some(shifted) => shifted,
            None => {
                proof {
                    if all_digits(digits@) {
                        lemma_digits_grow(digits@, i + 1);
                    }
                }
                return None;
            },
        };
        value = match shifted.checked_add((b - 48) as u64) {
            Some(sum) => sum,
            None => {
                proof {
                    if all_digits(digits@) {
                        lemma_digits_grow(digits@, i + 1);
                    }
                }
                return None;
            },
        };
        i = i + 1;
    }
    proof {
        assert(digits@.take(digits@.len() as int) =~= digits@);
    }
    Some(value)
}

/// The page id that the bytes write.
pub fn parse_u32(digits: &[u8]) -> (number: Option<u32>)
    ensures
        number is Some <==> number_of(digits@, u32::MAX as nat) is Some,
        number matches Some(n) ==> number_of(digits@, u32::MAX as nat) == Some(n as nat),
{
    match parse_u64(digits) {
        Some(n) => {
            if n <= 0xffff_ffff {
                Some(n as u32)
            } else {
                None
            }
        },
        None => None,
    }
}

/// The page that a row of the page table gives: its title and its id.
pub open spec fn page_of_row(row: (Seq<u8>, Seq<u8>)) -> Option<(Seq<u8>, u32)> {
    match number_of(row.0, u32::MAX as nat) {
        Some(id) => Some((row.1, id as u32)),
        None => None,
    }
}

/// The page table after a row: a title keeps the id that it was first given.
pub open spec fn pages_after_row(pages: Map<Seq<u8>, u32>, row: (Seq<u8>, Seq<u8>)) -> Map<
    Seq<u8>,
    u32,
> {
    match page_of_row(row) {
        Some((title, id)) => if pages.contains_key(title) {
            pages
        } else {
            pages.insert(title, id)
        },
        None => pages,
    }
}

/// The page table after the rows.
pub open spec fn pages_after(pages: Map<Seq<u8>, u32>, rows: Seq<(Seq<u8>, Seq<u8>)>) -> Map<
    Seq<u8>,
    u32,
>
    decreases rows.len(),
{
    if rows.len() == 0 {
        pages
    } else {
        pages_after_row(pages_after(pages, rows.drop_last()), rows.last())
    }
}

/// The redirect that a row of the redirect table gives: from the page of its
/// id to the page of its title. There is none where the title is unknown, and
/// none from a page to itself.
pub open spec fn redirect_of_row(pages: Map<Seq<u8>, u32>, row: (Seq<u8>, Seq<u8>)) -> Option<
    (u32, u32),
> {
    match number_of(row.0, u32::MAX as nat) {
        Some(source) => if pages.contains_key(row.1) && pages[row.1] != source {
            Some((source as u32, pages[row.1]))
        } else {
            None
        },
        None => None,
    }
}

/// The redirects after a row: a later row for a page replaces an earlier one.
pub open spec fn redirects_after_row(
    redirects: Map<u32, u32>,
    pages: Map<Seq<u8>, u32>,
    row: (Seq<u8>, Seq<u8>),
) -> Map<u32, u32> {
    match redirect_of_row(pages, row) {
        Some((source, target)) => redirects.insert(source, target),
        None => redirects,
    }
}

/// The redirects after the rows.
pub open spec fn redirects_after(
    redirects: Map<u32, u32>,
    pages: Map<Seq<u8>, u32>,
    rows: Seq<(Seq<u8>, Seq<u8>)>,
) -> Map<u32, u32>
    decreases rows.len(),
{
    if rows.len() == 0 {
        redirects
    } else {
        redirects_after_row(redirects_after(redirects, pages, rows.drop_last()), pages, rows.last())
    }
}

/// The link target that a row of the link target table gives: its id and the
/// page of its title. There is none where the title is unknown.
pub open spec fn linktarget_of_row(pages: Map<Seq<u8>, u32>, row: (Seq<u8>, Seq<u8>)) -> Option<
    (u64, u32),
> {
    match number_of(row.0, u64::MAX as nat) {
        Some(id) => if pages.contains_key(row.1) {
            Some((id as u64, pages[row.1]))
        } else {
            None
        },
        None => None,
    }
}

/// The link targets after a row.
pub open spec fn linktargets_after_row(
    targets: Map<u64, u32>,
    pages: Map<Seq<u8>, u32>,
    row: (Seq<u8>, Seq<u8>),
) -> Map<u64, u32> {
    match linktarget_of_row(pages, row) {
        Some((id, page)) => targets.insert(id, page),
        None => targets,
    }
}

/// The link targets after the rows.
pub open spec fn linktargets_after(
    targets: Map<u64, u32>,
    pages: Map<Seq<u8>, u32>,
    rows: Seq<(Seq<u8>, Seq<u8>)>,
) -> Map<u64, u32>
    decreases rows.len(),
{
    if rows.len() == 0 {
        targets
    } else {
        linktargets_after_row(
            linktargets_after(targets, pages, rows.drop_last()),
            pages,
            rows.last(),
        )
    }
}

/// The link that a row of the link table gives: from the page of its first
/// id to the page of the link target of its second id, each taken through its
/// redirect. There is none where the link target is unknown, and none from a
/// page to itself.
pub open spec fn link_of_row(
    targets: Map<u64, u32>,
    redirects: Map<u32, u32>,
    row: (Seq<u8>, Seq<u8>),
) -> Option<(u32, u32)> {
    match (number_of(row.0, u32::MAX as nat), number_of(row.1, u64::MAX as nat)) {
        (Some(source), Some(id)) => if targets.contains_key(id as u64) {
            let from = next_page(redirects, source as u32);
            let to = next_page(redirects, targets[id as u64]);
            if from != to {
                Some((from, to))
            } else {
                None
            }
        } else {
            None
        },
        _ => None,
    }
}

/// The links that the rows give, in the order of the rows.
pub open spec fn links_of_rows(
    targets: Map<u64, u32>,
    redirects: Map<u32, u32>,
    rows: Seq<(Seq<u8>, Seq<u8>)>,
) -> Seq<(u32, u32)>
    decreases rows.len(),
{
    if rows.len() == 0 {
        Seq::empty()
    } else {
        let before = links_of_rows(targets, redirects, rows.drop_last());
        match link_of_row(targets, redirects, rows.last()) {
            Some(link) => before.push(link),
            None => before,
        }
    }
}

/// Reads a row of the page table into the page table.
pub fn add_page(pages: &mut TitleMap, row: &RawRow)
    requires
        old(pages).wf(),
    ensures
        final(pages).wf(),
        final(pages)@ == pages_after_row(old(pages)@, row.fields()),
{
    match parse_u32(row.first.as_slice()) {
        Some(id) => {
            let title = crate::titles::copy_bytes(row.second.as_slice());
            pages.insert_first(title, id);
        },
        None => {},
    }
}

/// The redirect that a row of the redirect table gives. A redirect is never
/// from a page to itself.
pub fn read_redirect(pages: &TitleMap, row: &RawRow) -> (redirect: Option<(u32, u32)>)
    ensures
        redirect == redirect_of_row(pages@, row.fields()),
        redirect matches Some(r) ==> r.0 != r.1,
{
    let source = match parse_u32(row.first.as_slice()) {
        Some(source) => source,
        None => {
            return None;
        },
    };
    let target = match pages.get(row.second.as_slice()) {
        Some(target) => target,
        None => {
            return None;
        },
    };
    if source == target {
        return None;
    }
    Some((source, target))
}

/// The link target that a row of the link target table gives.
pub fn read_linktarget(pages: &TitleMap, row: &RawRow) -> (target: Option<(u64, u32)>)
    ensures
        target == linktarget_of_row(pages@, row.fields()),
{
    let id = match parse_u64(row.first.as_slice()) {
        Some(id) => id,
        None => {
            return None;
        },
    };
    match pages.get(row.second.as_slice()) {
        Some(page) => Some((id, page)),
        None => None,
    }
}

/// The link that a row of the link table gives. A link is never from a page
/// to itself, and where no redirect leads to a redirecting page, neither end
/// of a link redirects.
pub fn read_link(
    targets: &HashMap<u64, u32>,
    redirects: &HashMap<u32, u32>,
    row: &RawRow,
) -> (link: Option<(u32, u32)>)
    ensures
        link == link_of_row(targets@, redirects@, row.fields()),
        link matches Some(l) ==> l.0 != l.1,
        link matches Some(l) ==> crate::redirects::flat(redirects@) ==> !redirects@.contains_key(l.0)
            && !redirects@.contains_key(l.1),
{
    let source = match parse_u32(row.first.as_slice()) {
        Some(source) => source,
        None => {
            return None;
        },
    };
    let id = match parse_u64(row.second.as_slice()) {
        Some(id) => id,
        None => {
            return None;
        },
    };
    let target = match targets.get(&id) {
        Some(target) => *target,
        None => {
            return None;
        },
    };
    let from = match redirects.get(&source) {
        Some(page) => *page,
        None => source,
    };
    let to = match redirects.get(&target) {
        Some(page) => *page,
        None => target,
    };
    if from == to {
        return None;
    }
    Some((from, to))
}

/// Reads the rows of the page table into the page table.
pub fn collect_pages(pages: &mut TitleMap, rows: &Vec<RawRow>)
    requires
        old(pages).wf(),
    ensures
        final(pages).wf(),
        final(pages)@ == pages_after(old(pages)@, crate::scan::fields_of(rows@)),
{
    let ghost all = crate::scan::fields_of(rows@);
    let mut i: usize = 0;
    while i < rows.len()
        invariant
            i <= rows@.len(),
            all == crate::scan::fields_of(rows@),
            pages.wf(),
            pages@ == pages_after(old(pages)@, all.take(i as int)),
        decreases rows@.len() - i,
    {
        add_page(pages, &rows[i]);
        proof {
            assert(all.take(i + 1).drop_last() =~= all.take(i as int));
            assert(all.take(i + 1).last() == rows@[i as int].fields());
        }
        i = i + 1;
    }
    proof {
        assert(all.take(rows@.len() as int) =~= all);
    }
}

/// Reads the rows of the redirect table into the redirects.
pub fn collect_redirects(redirects: &mut HashMap<u32, u32>, pages: &TitleMap, rows: &Vec<RawRow>)
    ensures
        final(redirects)@ == redirects_after(
            old(redirects)@,
            pages@,
            crate::scan::fields_of(rows@),
        ),
{
    let ghost all = crate::scan::fields_of(rows@);
    let mut i: usize = 0;
    while i < rows.len()
        invariant
            i <= rows@.len(),
            all == crate::scan::fields_of(rows@),
            redirects@ == redirects_after(old(redirects)@, pages@, all.take(i as int)),
        decreases rows@.len() - i,
    {
        match read_redirect(pages, &rows[i]) {
            Some((source, target)) => {
                redirects.insert(source, target);
            },
            None => {},
        }
        proof {
            assert(all.take(i + 1).drop_last() =~= all.take(i as int));
            assert(all.take(i + 1).last() == rows@[i as int].fields());
        }
        i = i + 1;
    }
    proof {
        assert(all.take(rows@.len() as int) =~= all);
    }
}

/// Reads the rows of the link target table into the link targets.
pub fn collect_linktargets(targets: &mut HashMap<u64, u32>, pages: &TitleMap, rows: &Vec<RawRow>)
    ensures
        final(targets)@ == linktargets_after(old(targets)@, pages@, crate::scan::fields_of(rows@)),
{
    let ghost all = crate::scan::fields_of(rows@);
    let mut i: usize = 0;
    while i < rows.len()
        invariant
            i <= rows@.len(),
            all == crate::scan::fields_of(rows@),
            targets@ == linktargets_after(old(targets)@, pages@, all.take(i as int)),
        decreases rows@.len() - i,
    {
        match read_linktarget(pages, &rows[i]) {
            Some((id, page)) => {
                targets.insert(id, page);
            },
            None => {},
        }
        proof {
            assert(all.take(i + 1).drop_last() =~= all.take(i as int));
            assert(all.take(i + 1).last() == rows@[i as int].fields());
        }
        i = i + 1;
    }
    proof {
        assert(all.take(rows@.len() as int) =~= all);
    }
}

/// The links that the rows of the link table give, in the order of the rows.
pub fn collect_links(
    targets: &HashMap<u64, u32>,
    redirects: &HashMap<u32, u32>,
    rows: &Vec<RawRow>,
) -> (links: Vec<(u32, u32)>)
    ensures
        links@ == links_of_rows(targets@, redirects@, crate::scan::fields_of(rows@)),
{
    let ghost all = crate::scan::fields_of(rows@);
    let mut links: Vec<(u32, u32)> = Vec::new();
    let mut i: usize = 0;
    while i < rows.len()
        invariant
            i <= rows@.len(),
            all == crate::scan::fields_of(rows@),
            links@ == links_of_rows(targets@, redirects@, all.take(i as int)),
        decreases rows@.len() - i,
    {
        match read_link(targets, redirects, &rows[i]) {
            Some(link) => {
                links.push(link);
            },
            None => {},
        }
        proof {
            assert(all.take(i + 1).drop_last() =~= all.take(i as int));
            assert(all.take(i + 1).last() == rows@[i as int].fields());
        }
        i = i + 1;
    }
    proof {
        assert(all.take(rows@.len() as int) =~= all);
    }
    links
}

} // verus!
