use std::collections::HashMap;
use wikipath::parse::{
    add_page, collect_links, collect_linktargets, collect_pages, collect_redirects, parse_u32,
    parse_u64, read_link, read_linktarget, read_redirect,
};
use wikipath::scan::RawRow;
use wikipath::titles::{hash_title, same_bytes, TitleMap};

fn row(first: &str, second: &str) -> RawRow {
    RawRow { first: first.as_bytes().to_vec(), second: second.as_bytes().to_vec(), start: 0, end: 0 }
}

fn pages(entries: &[(&str, u32)]) -> TitleMap {
    let mut table = TitleMap::new();
    for (title, id) in entries {
        table.insert_first(title.as_bytes().to_vec(), *id);
    }
    table
}

#[test]
fn numbers_are_read_from_digits() {
    assert_eq!(parse_u32(b"0"), Some(0));
    assert_eq!(parse_u32(b"007"), Some(7));
    assert_eq!(parse_u32(b"4294967295"), Some(u32::MAX));
    assert_eq!(parse_u32(b"4294967296"), None);
    assert_eq!(parse_u32(b"99999999999999999999999"), None);
    assert_eq!(parse_u32(b""), None);
    assert_eq!(parse_u32(b"12a"), None);
    assert_eq!(parse_u32(b"+12"), None);
    assert_eq!(parse_u32(b"-1"), None);
    assert_eq!(parse_u64(b"18446744073709551615"), Some(u64::MAX));
    assert_eq!(parse_u64(b"18446744073709551616"), None);
    assert_eq!(parse_u64(b"4294967296"), Some(4_294_967_296));
    assert_eq!(parse_u64(b" 1"), None);
}

#[test]
fn a_title_keeps_its_first_id() {
    let mut table = TitleMap::new();
    assert!(table.is_empty());
    assert!(table.insert_first(b"A".to_vec(), 1));
    assert!(!table.insert_first(b"A".to_vec(), 2));
    assert!(table.insert_first(b"B".to_vec(), 3));
    assert!(!table.is_empty());
    assert_eq!(table.get(b"A"), Some(1));
    assert_eq!(table.get(b"B"), Some(3));
    assert_eq!(table.get(b"C"), None);
    assert_eq!(table.get(b""), None);
}

#[test]
fn many_titles() {
    let mut table = TitleMap::new();
    for i in 0..5000u32 {
        assert!(table.insert_first(format!("Title_{i}").into_bytes(), i));
    }
    for i in 0..5000u32 {
        assert_eq!(table.get(format!("Title_{i}").as_bytes()), Some(i));
    }
    assert_eq!(table.get(b"Title_5000"), None);
}

#[test]
fn hashes_and_bytes() {
    assert_eq!(hash_title(b""), 7);
    assert_eq!(hash_title(b"A"), 7 * 31 + 65);
    assert_eq!(hash_title(b"AB"), ((7 * 31 + 65) * 31 + 66) % 4_294_967_291);
    assert!(same_bytes(b"abc", b"abc"));
    assert!(!same_bytes(b"abc", b"abd"));
    assert!(!same_bytes(b"abc", b"ab"));
    assert!(same_bytes(b"", b""));
}

#[test]
fn page_rows() {
    let mut table = TitleMap::new();
    add_page(&mut table, &row("1", "A"));
    add_page(&mut table, &row("2", "A"));
    add_page(&mut table, &row("99999999999", "B"));
    add_page(&mut table, &row("3", "C"));
    assert_eq!(table.get(b"A"), Some(1));
    assert_eq!(table.get(b"B"), None);
    assert_eq!(table.get(b"C"), Some(3));
    let mut all = TitleMap::new();
    collect_pages(&mut all, &vec![row("1", "A"), row("2", "B"), row("x", "C")]);
    assert_eq!((all.get(b"A"), all.get(b"B"), all.get(b"C")), (Some(1), Some(2), None));
}

#[test]
fn redirect_rows() {
    let table = pages(&[("A", 1), ("B", 2)]);
    assert_eq!(read_redirect(&table, &row("7", "B")), Some((7, 2)));
    assert_eq!(read_redirect(&table, &row("7", "Unknown")), None);
    assert_eq!(read_redirect(&table, &row("2", "B")), None);
    assert_eq!(read_redirect(&table, &row("", "B")), None);
    let mut redirects = HashMap::new();
    collect_redirects(
        &mut redirects,
        &table,
        &vec![row("7", "B"), row("8", "A"), row("1", "A"), row("9", "Z"), row("7", "A")],
    );
    let expected: HashMap<u32, u32> = [(7, 1), (8, 1)].into_iter().collect();
    assert_eq!(redirects, expected);
}

#[test]
fn link_target_rows() {
    let table = pages(&[("A", 1), ("B", 2)]);
    assert_eq!(read_linktarget(&table, &row("100", "A")), Some((100, 1)));
    assert_eq!(read_linktarget(&table, &row("100", "Z")), None);
    assert_eq!(read_linktarget(&table, &row("1e3", "A")), None);
    let mut targets = HashMap::new();
    collect_linktargets(&mut targets, &table, &vec![row("100", "A"), row("200", "B"), row("3", "Z")]);
    let expected: HashMap<u64, u32> = [(100, 1), (200, 2)].into_iter().collect();
    assert_eq!(targets, expected);
}

#[test]
fn link_rows() {
    let targets: HashMap<u64, u32> = [(100, 1), (200, 2), (300, 3)].into_iter().collect();
    let redirects: HashMap<u32, u32> = [(3, 2)].into_iter().collect();
    assert_eq!(read_link(&targets, &redirects, &row("1", "200")), Some((1, 2)));
    assert_eq!(read_link(&targets, &redirects, &row("1", "300")), Some((1, 2)));
    assert_eq!(read_link(&targets, &redirects, &row("3", "100")), Some((2, 1)));
    assert_eq!(read_link(&targets, &redirects, &row("1", "999")), None);
    assert_eq!(read_link(&targets, &redirects, &row("1", "100")), None);
    assert_eq!(read_link(&targets, &redirects, &row("3", "200")), None);
    assert_eq!(read_link(&targets, &redirects, &row("2", "300")), None);
    assert_eq!(read_link(&targets, &redirects, &row("x", "100")), None);
    assert_eq!(
        collect_links(
            &targets,
            &redirects,
            &vec![row("1", "200"), row("1", "100"), row("3", "100"), row("1", "200")]
        ),
        vec![(1, 2), (2, 1), (1, 2)]
    );
}
