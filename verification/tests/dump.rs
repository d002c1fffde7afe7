use wikipath::dump::{
    read_sums_line, ExternalDumpFiles, ExternalFile, TableDumpFileMetadata, TableDumpFileMetadatas,
};
use wikipath::error::Error;
use wikipath::memory::MemUsage;

fn file(table: &str) -> TableDumpFileMetadata {
    TableDumpFileMetadata {
        table: table.to_string(),
        language_code: "en".to_string(),
        date_code: "20240501".to_string(),
        hash: "da39a3ee5e6b4b0d3255bfef95601890afd80709".to_string(),
    }
}

#[test]
fn the_name_of_a_dump_file() {
    assert_eq!(file("page").to_full_name(), "enwiki-20240501-page.sql.gz");
    assert_eq!(file("pagelinks").to_full_name(), "enwiki-20240501-pagelinks.sql.gz");
}

#[test]
fn the_language_and_date_of_the_dumps() {
    let all = TableDumpFileMetadatas {
        page: file("page"),
        redirect: file("redirect"),
        pagelinks: file("pagelinks"),
        linktarget: file("linktarget"),
    };
    let metadata = all.to_normal();
    assert_eq!(metadata.language_code, "en");
    assert_eq!(metadata.date_code, "20240501");
    assert_eq!(all.page.to_normal(), metadata);
}

#[test]
fn the_language_and_date_of_listed_files() {
    let listed = |name: &str| ExternalFile {
        full_name: name.to_string(),
        language_code: "de".to_string(),
        dump_date: "20240301".to_string(),
        hash: String::new(),
    };
    let files = ExternalDumpFiles {
        pages: listed("dewiki-20240301-page.sql.gz"),
        redirects: listed("dewiki-20240301-redirect.sql.gz"),
        pagelinks: listed("dewiki-20240301-pagelinks.sql.gz"),
    };
    assert_eq!(files.get_language_code(), "de");
    assert_eq!(files.get_dump_date(), "20240301");
}

#[test]
fn the_last_measurement_of_memory() {
    let mut memory = MemUsage::new();
    assert_eq!(memory.get(), 0);
    memory.update(12_345);
    assert_eq!(memory.get(), 12_345);
    memory.update(7);
    assert_eq!(memory.get(), 7);
}

#[test]
fn the_name_of_a_dump_file_is_read_back() {
    let read = TableDumpFileMetadata::from_full_name_and_hash(
        "enwiki-20240501-page.sql.gz",
        "abc".to_string(),
    )
    .unwrap();
    assert_eq!(read.language_code, "en");
    assert_eq!(read.date_code, "20240501");
    assert_eq!(read.table, "page");
    assert_eq!(read.hash, "abc");
    let again = TableDumpFileMetadata::from_full_name_and_hash(&file("linktarget").to_full_name(), String::new());
    assert_eq!(again.unwrap().table, "linktarget");
    // A letter run that ends with `wiki` twice, and a dash in the table.
    let odd = TableDumpFileMetadata::from_full_name_and_hash("wikiwiki-1-a-b.sql.gz", String::new())
        .unwrap();
    assert_eq!((odd.language_code.as_str(), odd.date_code.as_str(), odd.table.as_str()), ("wiki", "1", "a-b"));
}

#[test]
fn other_text_is_not_the_name_of_a_dump_file() {
    for text in [
        "",
        "enwiki-20240501-page.sql.g",
        "wiki-20240501-page.sql.gz",
        "enwiki--page.sql.gz",
        "enwiki-20240501-.sql.gz",
        "enwiki-20240501page.sql.gz",
        "en1wiki-20240501-page.sql.gz",
        "enwiki-20240501-pa\nge.sql.gz",
        "enwiki-20240501-page\nsql.gz",
        "enwiki-20240501-page.sql.gz ",
        "enwikt-20240501-page.sql.gz",
        "enwiki-20240501-page.sqx.gz",
        "enwiki-20240501-pageXsqlYgz",
        "enwiki-20240501-page.sql-gz",
        "enwiki-20240501-page_sql.gz",
    ] {
        assert!(TableDumpFileMetadata::from_full_name_and_hash(text, String::new()).is_err(), "{text:?}");
    }
}

#[test]
fn lines_of_the_list_of_checksums() {
    let read = read_sums_line("0123456789abcdef  enwiki-20240501-redirect.sql.gz").unwrap().unwrap();
    assert_eq!(read.hash, "0123456789abcdef");
    assert_eq!(read.table, "redirect");
    assert!(read_sums_line("0123 enwiki-20240501-redirect.sql.gz").is_none());
    assert!(read_sums_line("").is_none());
    assert!(read_sums_line("0123  enwiki-20240501-md5sums.txt").unwrap().is_err());
    // The hash ends at the first two spaces.
    let spaced = read_sums_line("a  b  enwiki-20240501-page.sql.gz").unwrap();
    assert!(spaced.is_err());
}

#[test]
fn the_four_files_of_a_build_are_picked_from_the_list() {
    let mut files = vec![file("pagelinks"), file("page"), file("categorylinks"), file("redirect")];
    assert_eq!(TableDumpFileMetadatas::select(&files).err(), Some(Error::NotFound));
    files.push(file("linktarget"));
    let mut second = file("page");
    second.hash = "second".to_string();
    files.push(second);
    let picked = TableDumpFileMetadatas::select(&files).unwrap();
    assert_eq!(picked.page.table, "page");
    assert_ne!(picked.page.hash, "second");
    assert_eq!(picked.redirect.table, "redirect");
    assert_eq!(picked.pagelinks.table, "pagelinks");
    assert_eq!(picked.linktarget.table, "linktarget");
    assert_eq!(TableDumpFileMetadatas::select(&vec![]).err(), Some(Error::NotFound));
}
