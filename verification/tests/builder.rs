use std::collections::HashMap;
use wikipath::builder::{first_stage, must_remove_leftover, next_stage, Dumps, Stage};
use wikipath::database::Database;
use wikipath::error::{Error, Table};
use wikipath::metadata::Metadata;

fn metadata() -> Metadata {
    Metadata { language_code: "en".to_string(), date_code: "20240501".to_string() }
}

fn page_dump(pages: &[(u32, &str)]) -> Vec<u8> {
    let mut text = String::from("INSERT INTO `page` VALUES ");
    for (id, title) in pages {
        text.push_str(&format!(
            "({id},0,'{title}',0,0,0.5,'20240418181826','20240418202621',1,10,'wikitext',NULL),"
        ));
    }
    text.into_bytes()
}

fn redirect_dump(redirects: &[(u32, &str)]) -> Vec<u8> {
    let mut text = String::from("INSERT INTO `redirect` VALUES ");
    for (source, title) in redirects {
        // A row on a line of its own: the pattern does not match across lines.
        text.push_str(&format!("({source},0,'{title}','',''),\n"));
    }
    text.into_bytes()
}

fn linktarget_dump(targets: &[(u64, &str)]) -> Vec<u8> {
    let mut text = String::from("INSERT INTO `linktarget` VALUES ");
    for (id, title) in targets {
        text.push_str(&format!("({id},0,'{title}'),"));
    }
    text.into_bytes()
}

fn pagelinks_dump(links: &[(u32, u64)]) -> Vec<u8> {
    let mut text = String::from("INSERT INTO `pagelinks` VALUES ");
    for (source, target) in links {
        text.push_str(&format!("({source},0,{target}),"));
    }
    text.into_bytes()
}

/// Pages 1 to `n` with the titles `Page_1` to `Page_n`, the link target `100 + i` for
/// page `i`, and a page 900 that redirects to page 901, so that the redirect
/// table is not empty.
fn corpus(n: u32, redirects: &[(u32, u32)], links: &[(u32, u32)]) -> Dumps {
    let mut titles: Vec<(u32, String)> = (1..=n).map(|i| (i, format!("Page_{i}"))).collect();
    titles.push((900, "Old".to_string()));
    titles.push((901, "New".to_string()));
    let pages: Vec<(u32, &str)> = titles.iter().map(|(i, t)| (*i, t.as_str())).collect();
    let mut redirect_rows: Vec<(u32, String)> =
        redirects.iter().map(|(s, t)| (*s, format!("Page_{t}"))).collect();
    redirect_rows.push((900, "New".to_string()));
    let redirect_refs: Vec<(u32, &str)> =
        redirect_rows.iter().map(|(s, t)| (*s, t.as_str())).collect();
    let targets: Vec<(u64, String)> = (1..=n).map(|i| (100 + i as u64, format!("Page_{i}"))).collect();
    let target_refs: Vec<(u64, &str)> = targets.iter().map(|(i, t)| (*i, t.as_str())).collect();
    let link_rows: Vec<(u32, u64)> = links.iter().map(|(s, t)| (*s, 100 + *t as u64)).collect();
    Dumps {
        page: page_dump(&pages),
        redirect: redirect_dump(&redirect_refs),
        linktarget: linktarget_dump(&target_refs),
        pagelinks: pagelinks_dump(&link_rows),
    }
}

fn build(dumps: &Dumps) -> Database {
    Database::build(metadata(), dumps, 1024).unwrap()
}

fn table(entries: &[(u32, &[u32])]) -> HashMap<u32, Vec<u32>> {
    entries.iter().map(|(key, list)| (*key, list.to_vec())).collect()
}

#[test]
fn the_stages_of_a_build() {
    assert_eq!(first_stage(false), Stage::Init);
    assert_eq!(first_stage(true), Stage::Done);
    let order = [
        Stage::Init,
        Stage::ParsePage,
        Stage::ParseRedirect,
        Stage::ResolveRedirects,
        Stage::InsertRedirects,
        Stage::ParseLinktarget,
        Stage::ParseAndInsertLinks,
        Stage::Commit,
        Stage::Compact,
        Stage::RenameToFinal,
        Stage::Done,
    ];
    for pair in order.windows(2) {
        assert_eq!(next_stage(pair[0], 5), Ok(pair[1]));
    }
    assert_eq!(next_stage(Stage::Done, 0), Ok(Stage::Done));
}

#[test]
fn a_table_without_rows_ends_the_build() {
    assert_eq!(next_stage(Stage::ParsePage, 0), Err(Error::SchemaDrift(Table::Page)));
    assert_eq!(next_stage(Stage::ParseRedirect, 0), Err(Error::SchemaDrift(Table::Redirect)));
    assert_eq!(next_stage(Stage::ParseLinktarget, 0), Err(Error::SchemaDrift(Table::LinkTarget)));
    assert_eq!(
        next_stage(Stage::ParseAndInsertLinks, 0),
        Err(Error::SchemaDrift(Table::PageLinks))
    );
    assert_eq!(next_stage(Stage::Init, 0), Ok(Stage::ParsePage));
    assert_eq!(next_stage(Stage::ResolveRedirects, 0), Ok(Stage::InsertRedirects));
    assert_eq!(next_stage(Stage::Commit, 0), Ok(Stage::Compact));
}

#[test]
fn what_an_earlier_build_left_is_removed() {
    assert!(must_remove_leftover(false, true));
    assert!(!must_remove_leftover(false, false));
    assert!(!must_remove_leftover(true, true));
    assert!(!must_remove_leftover(true, false));
}

#[test]
fn empty_dumps() {
    let dumps = Dumps { page: vec![], redirect: vec![], linktarget: vec![], pagelinks: vec![] };
    assert_eq!(
        Database::build(metadata(), &dumps, 1024).err(),
        Some(Error::SchemaDrift(Table::Page))
    );
}

#[test]
fn each_table_is_guarded() {
    let full = corpus(3, &[], &[(1, 2)]);
    let without = |table: Table| {
        let mut dumps = corpus(3, &[], &[(1, 2)]);
        match table {
            Table::Page => dumps.page = b"no rows".to_vec(),
            Table::Redirect => dumps.redirect = b"no rows".to_vec(),
            Table::LinkTarget => dumps.linktarget = b"no rows".to_vec(),
            Table::PageLinks => dumps.pagelinks = b"no rows".to_vec(),
        }
        Database::build(metadata(), &dumps, 1024).err()
    };
    assert!(Database::build(metadata(), &full, 1024).is_ok());
    for table in [Table::Page, Table::Redirect, Table::LinkTarget, Table::PageLinks] {
        assert_eq!(without(table), Some(Error::SchemaDrift(table)));
    }
}

#[test]
fn a_direct_link() {
    let db = build(&corpus(2, &[], &[(1, 2)]));
    assert_eq!(db.outgoing, table(&[(1, &[2])]));
    assert_eq!(db.incoming, table(&[(2, &[1])]));
    let paths = db.get_shortest_paths(1, 2);
    assert_eq!((paths.length, paths.count), (1, 1));
    assert!(!paths.source_is_redirect && !paths.target_is_redirect);
    assert_eq!(paths.links.len(), 1);
    assert!(paths.links[&1].contains(&2));
}

#[test]
fn a_diamond() {
    let db = build(&corpus(4, &[], &[(1, 2), (1, 3), (2, 4), (3, 4)]));
    let paths = db.get_shortest_paths(1, 4);
    assert_eq!((paths.length, paths.count), (2, 2));
    assert_eq!(paths.links.len(), 3);
    assert_eq!(paths.links[&1].len(), 2);
    assert!(paths.links[&2].contains(&4) && paths.links[&3].contains(&4));
}

#[test]
fn a_redirect_at_an_end() {
    let db = build(&corpus(3, &[(1, 2)], &[(2, 3)]));
    assert_eq!(db.redirects[&1], 2);
    let paths = db.get_shortest_paths(1, 3);
    assert_eq!(paths.source, 2);
    assert!(paths.source_is_redirect);
    assert_eq!((paths.length, paths.count), (1, 1));
    assert_eq!(paths.links.len(), 1);
    assert!(paths.links[&2].contains(&3));
}

#[test]
fn no_path_between_two_pages() {
    let db = build(&corpus(3, &[], &[(1, 2)]));
    let paths = db.get_shortest_paths(1, 3);
    assert_eq!((paths.length, paths.count), (0, 0));
    assert!(paths.links.is_empty());
}

#[test]
fn a_page_of_the_dump_to_itself() {
    let db = build(&corpus(3, &[], &[(1, 2), (2, 3)]));
    for page in 1..=3 {
        let paths = db.get_shortest_paths(page, page);
        assert_eq!((paths.length, paths.count), (0, 1));
        assert!(paths.links.is_empty());
    }
}

#[test]
fn links_go_through_redirects_and_links_to_oneself_are_dropped() {
    // 3 redirects to 2: the link 1 -> 3 becomes 1 -> 2, the link 3 -> 4
    // becomes 2 -> 4, and the links 2 -> 3 and 5 -> 5 lead nowhere.
    let db = build(&corpus(5, &[(3, 2)], &[(1, 3), (3, 4), (2, 3), (5, 5), (1, 2)]));
    assert_eq!(db.outgoing, table(&[(1, &[2]), (2, &[4])]));
    assert_eq!(db.incoming, table(&[(2, &[1]), (4, &[2])]));
    assert_eq!(db.check_integrity(), Ok(()));
    for page in db.redirects.keys() {
        assert!(!db.incoming.contains_key(page));
        assert!(!db.outgoing.contains_key(page));
    }
}

#[test]
fn redirects_of_a_build_are_flat() {
    let db = build(&corpus(7, &[(1, 2), (2, 3), (3, 4), (5, 5), (6, 7), (7, 6)], &[(1, 7)]));
    let expected: HashMap<u32, u32> = [(1, 4), (2, 4), (3, 4), (900, 901)].into_iter().collect();
    assert_eq!(db.redirects, expected);
    assert_eq!(db.outgoing, table(&[(4, &[7])]));
    // A link between two pages that redirect to one page leads nowhere.
    let nowhere = corpus(7, &[(1, 2), (2, 3), (3, 4)], &[(1, 4), (2, 3)]);
    assert_eq!(
        Database::build(metadata(), &nowhere, 1024).err(),
        Some(Error::SchemaDrift(Table::PageLinks))
    );
}

#[test]
fn links_end_at_articles() {
    // The link target 500 names a title that is no article, and nothing
    // names the link target 600: the links to them are passed over.
    let mut dumps = corpus(3, &[], &[(1, 2)]);
    dumps.linktarget.extend_from_slice(b"(500,0,'Unknown'),");
    dumps.pagelinks.extend_from_slice(b"(1,0,500),(2,0,600),(3,0,101),");
    let db = build(&dumps);
    assert_eq!(db.outgoing, table(&[(1, &[2]), (3, &[1])]));
    assert_eq!(db.incoming, table(&[(1, &[3]), (2, &[1])]));
    // A redirect to a title that is no article is passed over too.
    let mut dumps = corpus(3, &[], &[(1, 2)]);
    dumps.redirect.extend_from_slice(b"(3,0,'Unknown','',''),\n");
    let db = build(&dumps);
    let expected: HashMap<u32, u32> = [(900, 901)].into_iter().collect();
    assert_eq!(db.redirects, expected);
}

#[test]
fn a_build_in_small_chunks() {
    let links: Vec<(u32, u32)> = (1..200).map(|i| (i, i + 1)).collect();
    let dumps = corpus(200, &[], &links);
    let small = Database::build(metadata(), &dumps, 600).unwrap();
    let large = Database::build(metadata(), &dumps, 1 << 20).unwrap();
    assert_eq!(small.outgoing, large.outgoing);
    assert_eq!(small.incoming, large.incoming);
    assert_eq!(small.outgoing.len(), 199);
    let paths = small.get_shortest_paths(1, 200);
    assert_eq!((paths.length, paths.count), (199, 1));
    for list in small.incoming.values().chain(small.outgoing.values()) {
        assert!(list.windows(2).all(|pair| pair[0] < pair[1]));
    }
}
