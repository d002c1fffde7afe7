//! Building a database: the stages of a build in their order, with the guard
//! against a dump whose rows are no longer recognised, and the build of a
//! database from dumps held in memory.

use crate::batch::{lemma_entries_edges, store_entries, IncomingLinkBatch};
use crate::database::{no_empty_list, Database};
use crate::error::{Error, Table};
use crate::graph::{graph_of, reversed};
use crate::gzip::{decompress, gunzip_of};
use crate::metadata::Metadata;
use crate::parse::{
    collect_linktargets, collect_links, collect_pages, collect_redirects, link_of_row,
    links_of_rows, linktargets_after, pages_after, redirects_after,
};
use crate::redirects::{cleanup_redirects, flat, follow, is_cleanup_of, next_page, resolves_to};
use crate::scan::{max_row_size, pattern_text, rows_in, scan_bytes, windows};
use crate::titles::TitleMap;
use std::collections::HashMap;
use vstd::prelude::*;
use vstd::std_specs::hash::*;

verus! {

broadcast use vstd::std_specs::hash::group_hash_axioms;

/// The stages of a build, in their order.
#[derive(Debug, Clone, Copy, PartialEq, Eq, Structural)]
pub enum Stage {
    Init,
    ParsePage,
    ParseRedirect,
    ResolveRedirects,
    InsertRedirects,
    ParseLinktarget,
    ParseAndInsertLinks,
    Commit,
    Compact,
    RenameToFinal,
    Done,
}

/// The table that a stage reads, where it reads one.
pub open spec fn table_of(stage: Stage) -> Option<Table> {
    match stage {
        Stage::ParsePage => Some(Table::Page),
        Stage::ParseRedirect => Some(Table::Redirect),
        Stage::ParseLinktarget => Some(Table::LinkTarget),
        Stage::ParseAndInsertLinks => Some(Table::PageLinks),
        _ => None,
    }
}

/// The stage that follows `stage` in the order of a build.
pub open spec fn successor(stage: Stage) -> Stage {
    match stage {
        Stage::Init => Stage::ParsePage,
        Stage::ParsePage => Stage::ParseRedirect,
        Stage::ParseRedirect => Stage::ResolveRedirects,
        Stage::ResolveRedirects => Stage::InsertRedirects,
        Stage::InsertRedirects => Stage::ParseLinktarget,
        Stage::ParseLinktarget => Stage::ParseAndInsertLinks,
        Stage::ParseAndInsertLinks => Stage::Commit,
        Stage::Commit => Stage::Compact,
        Stage::Compact => Stage::RenameToFinal,
        Stage::RenameToFinal => Stage::Done,
        Stage::Done => Stage::Done,
    }
}

/// The stage after `stage`, which has given `rows` rows: a stage that reads
/// a table and has found no row in it ends the build, since the layout of the
/// dump must have changed.
pub open spec fn stage_after(stage: Stage, rows: u64) -> Result<Stage, Error> {
    match table_of(stage) {
        Some(table) => if rows == 0 {
            Err(Error::SchemaDrift(table))
        } else {
            Ok(successor(stage))
        },
        None => Ok(successor(stage)),
    }
}

/// The stage at which a build starts: at its end, with nothing to do, where
/// the database exists already.
pub fn first_stage(final_exists: bool) -> (stage: Stage)
    ensures
        stage == (if final_exists {
            Stage::Done
        } else {
            Stage::Init
        }),
{
    if final_exists {
        Stage::Done
    } else {
        Stage::Init
    }
}

/// Whether what an earlier build left at the temporary path has to be
/// removed before the build starts.
pub fn must_remove_leftover(final_exists: bool, tmp_exists: bool) -> (remove: bool)
    ensures
        remove == (!final_exists && tmp_exists),
{
    !final_exists && tmp_exists
}

/// The stage after `stage`, which has given `rows` rows.
pub fn next_stage(stage: Stage, rows: u64) -> (next: Result<Stage, Error>)
    ensures
        next == stage_after(stage, rows),
{
    let table = match stage {
        Stage::ParsePage => Some(Table::Page),
        Stage::ParseRedirect => Some(Table::Redirect),
        Stage::ParseLinktarget => Some(Table::LinkTarget),
        Stage::ParseAndInsertLinks => Some(Table::PageLinks),
        _ => None,
    };
    match table {
        Some(table) => {
            if rows == 0 {
                return Err(Error::SchemaDrift(table));
            }
        },
        None => {},
    }
    Ok(
        match stage {
            Stage::Init => Stage::ParsePage,
            Stage::ParsePage => Stage::ParseRedirect,
            Stage::ParseRedirect => Stage::ResolveRedirects,
            Stage::ResolveRedirects => Stage::InsertRedirects,
            Stage::InsertRedirects => Stage::ParseLinktarget,
            Stage::ParseLinktarget => Stage::ParseAndInsertLinks,
            Stage::ParseAndInsertLinks => Stage::Commit,
            Stage::Commit => Stage::Compact,
            Stage::Compact => Stage::RenameToFinal,
            Stage::RenameToFinal => Stage::Done,
            Stage::Done => Stage::Done,
        },
    )
}

/// The stage reached from `stage` after `steps` stages that each gave a row.
pub open spec fn stage_reached(stage: Stage, steps: nat) -> Stage
    decreases steps,
{
    if steps == 0 {
        stage
    } else {
        successor(stage_reached(stage, (steps - 1) as nat))
    }
}

/// A build in which every stage gives a row passes through the ten stages in
/// their order and is done after them, and not before.
pub proof fn lemma_build_order()
    ensures
        stage_reached(Stage::Init, 10) == Stage::Done,
        forall|steps: nat| steps < 10 ==> #[trigger] stage_reached(Stage::Init, steps) != Stage::Done,
        forall|stage: Stage, rows: u64| rows > 0 ==> #[trigger] stage_after(stage, rows) == Ok::<
            Stage,
            Error,
        >(successor(stage)),
{
    reveal_with_fuel(stage_reached, 11);
    assert forall|steps: nat| steps < 10 implies #[trigger] stage_reached(Stage::Init, steps)
        != Stage::Done by {
        reveal_with_fuel(stage_reached, 11);
    }
}

/// The four dumps of a build, decompressed.
pub struct Dumps {
    pub page: Vec<u8>,
    pub redirect: Vec<u8>,
    pub linktarget: Vec<u8>,
    pub pagelinks: Vec<u8>,
}

/// The rows of a table in its dump, read in chunks of `chunk_size`.
pub open spec fn dump_rows(table: Table, bytes: Seq<u8>, chunk_size: int) -> Seq<
    (Seq<u8>, Seq<u8>),
> {
    rows_in(
        pattern_text(table),
        bytes,
        windows(bytes.len() as int, chunk_size, max_row_size(table) as int),
    )
}

impl Dumps {
    /// The four dumps of a build, read from the content of the four
    /// compressed dump files. Where one of them cannot be decompressed, there
    /// are no dumps to build from.
    pub fn from_compressed(
        page: &[u8],
        redirect: &[u8],
        linktarget: &[u8],
        pagelinks: &[u8],
    ) -> (dumps: Result<Dumps, Error>)
        ensures
            dumps is Ok <==> gunzip_of(page@) is Some && gunzip_of(redirect@) is Some && gunzip_of(
                linktarget@,
            ) is Some && gunzip_of(pagelinks@) is Some,
            dumps matches Ok(d) ==> gunzip_of(page@) == Some(d.page@) && gunzip_of(redirect@)
                == Some(d.redirect@) && gunzip_of(linktarget@) == Some(d.linktarget@) && gunzip_of(
                pagelinks@,
            ) == Some(d.pagelinks@),
            dumps matches Err(e) ==> e == Error::IoError,
    {
        let page = match decompress(page) {
            Ok(bytes) => bytes,
            Err(e) => {
                return Err(e);
            },
        };
        let redirect = match decompress(redirect) {
            Ok(bytes) => bytes,
            Err(e) => {
                return Err(e);
            },
        };
        let linktarget = match decompress(linktarget) {
            Ok(bytes) => bytes,
            Err(e) => {
                return Err(e);
            },
        };
        let pagelinks = match decompress(pagelinks) {
            Ok(bytes) => bytes,
            Err(e) => {
                return Err(e);
            },
        };
        Ok(Dumps { page, redirect, linktarget, pagelinks })
    }

    /// The page table that the page dump gives.
    pub open spec fn pages(&self, chunk_size: int) -> Map<Seq<u8>, u32> {
        pages_after(Map::empty(), dump_rows(Table::Page, self.page@, chunk_size))
    }

    /// The redirects that the redirect dump gives, as they stand in it.
    pub open spec fn redirects(&self, chunk_size: int) -> Map<u32, u32> {
        redirects_after(
            Map::empty(),
            self.pages(chunk_size),
            dump_rows(Table::Redirect, self.redirect@, chunk_size),
        )
    }

    /// The link targets that the link target dump gives.
    pub open spec fn linktargets(&self, chunk_size: int) -> Map<u64, u32> {
        linktargets_after(
            Map::empty(),
            self.pages(chunk_size),
            dump_rows(Table::LinkTarget, self.linktarget@, chunk_size),
        )
    }

    /// The links that the link dump gives, each end taken through `clean`.
    pub open spec fn links(&self, chunk_size: int, clean: Map<u32, u32>) -> Seq<(u32, u32)> {
        links_of_rows(
            self.linktargets(chunk_size),
            clean,
            dump_rows(Table::PageLinks, self.pagelinks@, chunk_size),
        )
    }

    /// The table before the link table whose dump gave nothing, the first of
    /// them in the order of the build; none where each gave something.
    pub open spec fn drift_before_links(&self, chunk_size: int) -> Option<Table> {
        if self.pages(chunk_size) =~= Map::<Seq<u8>, u32>::empty() {
            Some(Table::Page)
        } else if self.redirects(chunk_size) =~= Map::<u32, u32>::empty() {
            Some(Table::Redirect)
        } else if self.linktargets(chunk_size) =~= Map::<u64, u32>::empty() {
            Some(Table::LinkTarget)
        } else {
            None
        }
    }

    /// The table whose dump gave nothing, the first of them in the order of
    /// the build; none where every dump gave something.
    pub open spec fn drift(&self, chunk_size: int, clean: Map<u32, u32>) -> Option<Table> {
        match self.drift_before_links(chunk_size) {
            Some(table) => Some(table),
            None => if self.links(chunk_size, clean).len() == 0 {
                Some(Table::PageLinks)
            } else {
                None
            },
        }
    }

    /// The page table of the page dump: the id of each article by its title.
    pub fn parse_page_table(&self, chunk_size: usize) -> (pages: TitleMap)
        requires
            chunk_size > max_row_size(Table::Page),
        ensures
            pages.wf(),
            pages@ == self.pages(chunk_size as int),
    {
        let rows = scan_bytes(Table::Page, self.page.as_slice(), chunk_size);
        let mut pages = TitleMap::new();
        collect_pages(&mut pages, &rows);
        pages
    }

    /// The redirects of the redirect dump, as they stand in it.
    pub fn parse_redirect_table(&self, pages: &TitleMap, chunk_size: usize) -> (redirects: HashMap<
        u32,
        u32,
    >)
        requires
            chunk_size > max_row_size(Table::Redirect),
        ensures
            redirects@ == redirects_after(
                Map::empty(),
                pages@,
                dump_rows(Table::Redirect, self.redirect@, chunk_size as int),
            ),
    {
        let rows = scan_bytes(Table::Redirect, self.redirect.as_slice(), chunk_size);
        let mut redirects: HashMap<u32, u32> = HashMap::new();
        collect_redirects(&mut redirects, pages, &rows);
        redirects
    }

    /// The link targets of the link target dump.
    pub fn parse_linktarget_table(&self, pages: &TitleMap, chunk_size: usize) -> (targets: HashMap<
        u64,
        u32,
    >)
        requires
            chunk_size > max_row_size(Table::LinkTarget),
        ensures
            targets@ == linktargets_after(
                Map::empty(),
                pages@,
                dump_rows(Table::LinkTarget, self.linktarget@, chunk_size as int),
            ),
    {
        let rows = scan_bytes(Table::LinkTarget, self.linktarget.as_slice(), chunk_size);
        let mut targets: HashMap<u64, u32> = HashMap::new();
        collect_linktargets(&mut targets, pages, &rows);
        targets
    }

    /// The links of the link dump, each end taken through its redirect.
    pub fn parse_pagelinks_table(
        &self,
        targets: &HashMap<u64, u32>,
        redirects: &HashMap<u32, u32>,
        chunk_size: usize,
    ) -> (links: Vec<(u32, u32)>)
        requires
            chunk_size > max_row_size(Table::PageLinks),
        ensures
            links@ == links_of_rows(
                targets@,
                redirects@,
                dump_rows(Table::PageLinks, self.pagelinks@, chunk_size as int),
            ),
    {
        let rows = scan_bytes(Table::PageLinks, self.pagelinks.as_slice(), chunk_size);
        collect_links(targets, redirects, &rows)
    }
}

/// A table of redirects without an entry is the empty table.
proof fn lemma_no_entry_is_empty(table: Map<u32, u32>)
    requires
        table.dom().finite(),
    ensures
        table.len() == 0 <==> table =~= Map::<u32, u32>::empty(),
{
    if table.len() == 0 {
        assert(table.dom() =~= Set::<u32>::empty());
    }
}

/// A table of link targets without an entry is the empty table.
proof fn lemma_no_target_is_empty(table: Map<u64, u32>)
    requires
        table.dom().finite(),
    ensures
        table.len() == 0 <==> table =~= Map::<u64, u32>::empty(),
{
    if table.len() == 0 {
        assert(table.dom() =~= Set::<u64>::empty());
    }
}

/// A dump without bytes has no rows.
pub proof fn lemma_empty_dump_has_no_rows(table: Table, chunk_size: int)
    ensures
        dump_rows(table, Seq::<u8>::empty(), chunk_size) == Seq::<(Seq<u8>, Seq<u8>)>::empty(),
{
    assert(windows(0, chunk_size, max_row_size(table) as int) =~= Seq::<(int, int)>::empty());
}

/// Empty dumps give an empty page table, no redirect, no link target and no
/// link, so that a build from them ends at the page table.
pub proof fn lemma_empty_dumps_drift(dumps: &Dumps, chunk_size: int, clean: Map<u32, u32>)
    requires
        dumps.page@.len() == 0,
        dumps.redirect@.len() == 0,
        dumps.linktarget@.len() == 0,
        dumps.pagelinks@.len() == 0,
    ensures
        dumps.pages(chunk_size) == Map::<Seq<u8>, u32>::empty(),
        dumps.redirects(chunk_size) == Map::<u32, u32>::empty(),
        dumps.linktargets(chunk_size) == Map::<u64, u32>::empty(),
        dumps.links(chunk_size, clean) == Seq::<(u32, u32)>::empty(),
        dumps.drift(chunk_size, clean) == Some(Table::Page),
{
    lemma_empty_dump_has_no_rows(Table::Page, chunk_size);
    lemma_empty_dump_has_no_rows(Table::Redirect, chunk_size);
    lemma_empty_dump_has_no_rows(Table::LinkTarget, chunk_size);
    lemma_empty_dump_has_no_rows(Table::PageLinks, chunk_size);
    assert(dumps.page@ =~= Seq::<u8>::empty());
    assert(dumps.redirect@ =~= Seq::<u8>::empty());
    assert(dumps.linktarget@ =~= Seq::<u8>::empty());
    assert(dumps.pagelinks@ =~= Seq::<u8>::empty());
}

/// No link that the rows give starts or ends at a page that redirects, where
/// the redirects are flat; and none leads from a page to itself.
pub proof fn lemma_links_avoid_redirects(
    targets: Map<u64, u32>,
    redirects: Map<u32, u32>,
    rows: Seq<(Seq<u8>, Seq<u8>)>,
    link: (u32, u32),
)
    requires
        flat(redirects),
        links_of_rows(targets, redirects, rows).contains(link),
    ensures
        !redirects.contains_key(link.0),
        !redirects.contains_key(link.1),
        link.0 != link.1,
    decreases rows.len(),
{
    let all = links_of_rows(targets, redirects, rows);
    let i = choose|i: int| 0 <= i < all.len() && all[i] == link;
    if rows.len() > 0 {
        let before = links_of_rows(targets, redirects, rows.drop_last());
        if i < before.len() {
            assert(before[i] == link);
            lemma_links_avoid_redirects(targets, redirects, rows.drop_last(), link);
        } else {
            assert(link_of_row(targets, redirects, rows.last()) == Some(link));
        }
    }
}

/// `id` is the id of an article of the page table.
pub open spec fn is_page(pages: Map<Seq<u8>, u32>, id: u32) -> bool {
    exists|title: Seq<u8>| #[trigger] pages.contains_key(title) && pages[title] == id
}

/// Every redirect of `redirects` leads to an article of the page table.
pub open spec fn lead_to_pages(redirects: Map<u32, u32>, pages: Map<Seq<u8>, u32>) -> bool {
    forall|s: u32| #[trigger] redirects.contains_key(s) ==> is_page(pages, redirects[s])
}

/// Redirects that lead to articles still do so after more rows.
pub proof fn lemma_redirects_lead_to_pages(
    redirects: Map<u32, u32>,
    pages: Map<Seq<u8>, u32>,
    rows: Seq<(Seq<u8>, Seq<u8>)>,
)
    requires
        lead_to_pages(redirects, pages),
    ensures
        lead_to_pages(redirects_after(redirects, pages, rows), pages),
    decreases rows.len(),
{
    if rows.len() > 0 {
        lemma_redirects_lead_to_pages(redirects, pages, rows.drop_last());
        let before = redirects_after(redirects, pages, rows.drop_last());
        let after = redirects_after(redirects, pages, rows);
        assert forall|s: u32| #[trigger] after.contains_key(s) implies is_page(pages, after[s]) by {
            if !(before.contains_key(s) && before[s] == after[s]) {
                assert(pages.contains_key(rows.last().1));
            }
        }
    }
}

/// Link targets that are articles are still so after more rows.
pub proof fn lemma_linktargets_are_pages(
    targets: Map<u64, u32>,
    pages: Map<Seq<u8>, u32>,
    rows: Seq<(Seq<u8>, Seq<u8>)>,
)
    requires
        forall|id: u64| #[trigger] targets.contains_key(id) ==> is_page(pages, targets[id]),
    ensures
        forall|id: u64| #[trigger]
            linktargets_after(targets, pages, rows).contains_key(id) ==> is_page(
                pages,
                linktargets_after(targets, pages, rows)[id],
            ),
    decreases rows.len(),
{
    if rows.len() > 0 {
        lemma_linktargets_are_pages(targets, pages, rows.drop_last());
        let before = linktargets_after(targets, pages, rows.drop_last());
        let after = linktargets_after(targets, pages, rows);
        assert forall|id: u64| #[trigger] after.contains_key(id) implies is_page(
            pages,
            after[id],
        ) by {
            if !(before.contains_key(id) && before[id] == after[id]) {
                assert(pages.contains_key(rows.last().1));
            }
        }
    }
}

/// Following the redirects from a page that redirects, by one hop or more,
/// leads to a page that some redirect leads to.
pub proof fn lemma_follow_is_target(r: Map<u32, u32>, s: u32, n: nat)
    requires
        r.contains_key(s),
        n >= 1,
    ensures
        exists|k: u32| #[trigger] r.contains_key(k) && r[k] == follow(r, s, n),
    decreases n,
{
    let before = follow(r, s, (n - 1) as nat);
    if r.contains_key(before) {
        assert(r[before] == follow(r, s, n));
    } else {
        assert(n > 1) by {
            if n == 1 {
                assert(follow(r, s, 0) == s);
            }
        }
        lemma_follow_is_target(r, s, (n - 1) as nat);
        let k = choose|k: u32| #[trigger] r.contains_key(k) && r[k] == before;
        assert(r[k] == follow(r, s, n));
    }
}

/// Flattening keeps redirects on articles: where every redirect leads to an
/// article, so does every flattened one.
pub proof fn lemma_cleanup_leads_to_pages(
    clean: Map<u32, u32>,
    raw: Map<u32, u32>,
    pages: Map<Seq<u8>, u32>,
)
    requires
        is_cleanup_of(clean, raw),
        lead_to_pages(raw, pages),
    ensures
        lead_to_pages(clean, pages),
{
    assert forall|s: u32| #[trigger] clean.contains_key(s) implies is_page(pages, clean[s]) by {
        assert(resolves_to(raw, s, clean[s]));
        let n = choose|n: nat|
            n >= 1 && #[trigger] follow(raw, s, n) == clean[s] && follow(raw, clean[s], n)
                == clean[s];
        lemma_follow_is_target(raw, s, n);
        let k = choose|k: u32| #[trigger] raw.contains_key(k) && raw[k] == follow(raw, s, n);
        assert(is_page(pages, raw[k]));
    }
}

/// Every link of a build ends at an article of the page table, and so does
/// every flattened redirect.
pub proof fn lemma_links_end_at_pages(
    dumps: &Dumps,
    chunk_size: int,
    clean: Map<u32, u32>,
    link: (u32, u32),
)
    requires
        is_cleanup_of(clean, dumps.redirects(chunk_size)),
        dumps.links(chunk_size, clean).contains(link),
    ensures
        lead_to_pages(clean, dumps.pages(chunk_size)),
        is_page(dumps.pages(chunk_size), link.1),
{
    let pages = dumps.pages(chunk_size);
    lemma_redirects_lead_to_pages(
        Map::empty(),
        pages,
        dump_rows(Table::Redirect, dumps.redirect@, chunk_size),
    );
    lemma_cleanup_leads_to_pages(clean, dumps.redirects(chunk_size), pages);
    lemma_linktargets_are_pages(
        Map::empty(),
        pages,
        dump_rows(Table::LinkTarget, dumps.linktarget@, chunk_size),
    );
    lemma_link_ends_at_target(
        dumps.linktargets(chunk_size),
        clean,
        dump_rows(Table::PageLinks, dumps.pagelinks@, chunk_size),
        link,
    );
}

/// A link that the rows give ends at a link target, or at the page that a
/// link target redirects to.
proof fn lemma_link_ends_at_target(
    targets: Map<u64, u32>,
    redirects: Map<u32, u32>,
    rows: Seq<(Seq<u8>, Seq<u8>)>,
    link: (u32, u32),
)
    requires
        links_of_rows(targets, redirects, rows).contains(link),
    ensures
        exists|id: u64| #[trigger] targets.contains_key(id) && link.1 == next_page(redirects, targets[id]),
    decreases rows.len(),
{
    let all = links_of_rows(targets, redirects, rows);
    let i = choose|i: int| 0 <= i < all.len() && all[i] == link;
    if rows.len() > 0 {
        let before = links_of_rows(targets, redirects, rows.drop_last());
        if i < before.len() {
            assert(before[i] == link);
            lemma_link_ends_at_target(targets, redirects, rows.drop_last(), link);
        } else {
            assert(link_of_row(targets, redirects, rows.last()) == Some(link));
            let id = crate::parse::number_of(rows.last().1, u64::MAX as nat).unwrap() as u64;
            assert(targets.contains_key(id));
        }
    }
}

impl Database {
    /// Builds a database from the four dumps: reads the pages, then the
    /// redirects, flattens them, reads the link targets, then the links, and
    /// fills the two adjacency tables. A dump that gives nothing ends the
    /// build with the name of its table.
    pub fn build(metadata: Metadata, dumps: &Dumps, chunk_size: usize) -> (built: Result<
        Database,
        Error,
    >)
        requires
            chunk_size > max_row_size(Table::Page),
            chunk_size > max_row_size(Table::Redirect),
            chunk_size > max_row_size(Table::LinkTarget),
            chunk_size > max_row_size(Table::PageLinks),
        ensures
            built matches Ok(db) ==> {
                &&& db.wf()
                &&& db.metadata == metadata
                &&& is_cleanup_of(db.redirects@, dumps.redirects(chunk_size as int))
                &&& dumps.drift(chunk_size as int, db.redirects@) is None
                &&& forall|s: u32, t: u32| #[trigger]
                    db.graph().contains((s, t)) <==> dumps.links(
                        chunk_size as int,
                        db.redirects@,
                    ).contains((s, t))
                &&& lead_to_pages(db.redirects@, dumps.pages(chunk_size as int))
                &&& forall|s: u32, t: u32| #[trigger]
                    db.graph().contains((s, t)) ==> is_page(dumps.pages(chunk_size as int), t)
            },
            built matches Err(e) ==> match dumps.drift_before_links(chunk_size as int) {
                Some(table) => e == Error::SchemaDrift(table),
                None => e == Error::SchemaDrift(Table::PageLinks) && exists|clean: Map<u32, u32>|
                    is_cleanup_of(clean, dumps.redirects(chunk_size as int)) && (#[trigger] dumps.links(
                        chunk_size as int,
                        clean,
                    )).len() == 0,
            },
    {
        let ghost size = chunk_size as int;
        let pages = dumps.parse_page_table(chunk_size);
        if pages.is_empty() {
            return Err(Error::SchemaDrift(Table::Page));
        }
        let raw = dumps.parse_redirect_table(&pages, chunk_size);
        if raw.len() == 0 {
            proof {
                lemma_no_entry_is_empty(raw@);
            }
            return Err(Error::SchemaDrift(Table::Redirect));
        }
        proof {
            lemma_no_entry_is_empty(raw@);
        }
        let clean = cleanup_redirects(raw);
        let targets = dumps.parse_linktarget_table(&pages, chunk_size);
        proof {
            lemma_no_target_is_empty(targets@);
        }
        if targets.len() == 0 {
            return Err(Error::SchemaDrift(Table::LinkTarget));
        }
        let links = dumps.parse_pagelinks_table(&targets, &clean, chunk_size);
        if links.len() == 0 {
            proof {
                assert(dumps.drift_before_links(size) is None);
                assert(is_cleanup_of(clean@, dumps.redirects(size)));
                assert(dumps.links(size, clean@).len() == 0);
            }
            return Err(Error::SchemaDrift(Table::PageLinks));
        }
        let ghost all = dumps.links(size, clean@);
        let mut batch = IncomingLinkBatch::new();
        let mut i: usize = 0;
        while i < links.len()
            invariant
                i <= links@.len(),
                no_empty_list(batch.incoming@),
                forall|e: (u32, u32)| #[trigger]
                    batch.edges().contains(e) <==> links@.take(i as int).contains((e.1, e.0)),
            decreases links@.len() - i,
        {
            let (source, target) = links[i];
            batch.insert(source, target);
            proof {
                assert(links@.take(i + 1) =~= links@.take(i as int).push((source, target)));
                assert forall|e: (u32, u32)| #[trigger]
                    batch.edges().contains(e) <==> links@.take(i + 1).contains((e.1, e.0)) by {
                    lemma_pair_push_contains(links@.take(i as int), (source, target), (e.1, e.0));
                }
            }
            i = i + 1;
        }
        proof {
            assert(links@.take(links@.len() as int) =~= links@);
        }
        let mut db = Database::new(metadata);
        db.redirects = clean;
        let ghost lists = batch.incoming@;
        proof {
            assert forall|e: (u32, u32)| #[trigger]
                graph_of(lists).contains(e) <==> links@.contains((e.1, e.0)) by {
                assert(batch.edges().contains(e) <==> links@.contains((e.1, e.0)));
            }
        }
        let entries = batch.drain();
        proof {
            lemma_entries_edges(entries@, lists);
            assert forall|k: int| 0 <= k < entries@.len() implies (#[trigger] entries@[k]).1@.len()
                > 0 by {
                assert(lists.contains_key(entries@[k].0));
            }
        }
        store_entries(&mut db.incoming, entries);
        db.generate_outgoing_table();
        proof {
            assert(graph_of(db.incoming@) =~= graph_of(lists));
            assert forall|s: u32, t: u32| #[trigger]
                db.graph().contains((s, t)) <==> all.contains((s, t)) by {
                assert(reversed(graph_of(db.outgoing@)).contains((t, s)) <==> graph_of(
                    db.outgoing@,
                ).contains((s, t)));
                let e = (t, s);
                assert(graph_of(lists).contains(e) <==> links@.contains((e.1, e.0)));
            }
            assert forall|s: u32, t: u32| #[trigger] db.graph().contains((s, t)) implies is_page(
                dumps.pages(size),
                t,
            ) by {
                assert(all.contains((s, t)));
                lemma_links_end_at_pages(dumps, size, clean@, (s, t));
            }
            lemma_links_end_at_pages(dumps, size, clean@, links@[0]);
            assert forall|p: u32| #[trigger] db.redirects@.contains_key(p) implies !db.incoming@.contains_key(
                p,
            ) && !db.outgoing@.contains_key(p) by {
                if db.incoming@.contains_key(p) {
                    let s = db.incoming@[p]@[0];
                    assert(db.incoming@[p]@.contains(s));
                    let e = (p, s);
                    assert(graph_of(db.incoming@).contains(e));
                    assert(graph_of(lists).contains(e) <==> links@.contains((e.1, e.0)));
                    assert(all.contains((s, p)));
                    lemma_links_avoid_redirects(
                        dumps.linktargets(size),
                        clean@,
                        dump_rows(Table::PageLinks, dumps.pagelinks@, size),
                        (s, p),
                    );
                }
                if db.outgoing@.contains_key(p) {
                    let t = db.outgoing@[p]@[0];
                    assert(db.outgoing@[p]@.contains(t));
                    assert(graph_of(db.outgoing@).contains((p, t)));
                    assert(db.graph().contains((p, t)));
                    lemma_links_avoid_redirects(
                        dumps.linktargets(size),
                        clean@,
                        dump_rows(Table::PageLinks, dumps.pagelinks@, size),
                        (p, t),
                    );
                }
            }
        }
        Ok(db)
    }
}

/// `list` with `x` behind it holds what `list` holds, and `x`.
proof fn lemma_pair_push_contains(list: Seq<(u32, u32)>, x: (u32, u32), y: (u32, u32))
    ensures
        list.push(x).contains(y) <==> list.contains(y) || y == x,
{
    if list.contains(y) {
        let i = choose|i: int| 0 <= i < list.len() && list[i] == y;
        assert(list.push(x)[i] == y);
    }
    assert(list.push(x)[list.len() as int] == x);
}

} // verus!
