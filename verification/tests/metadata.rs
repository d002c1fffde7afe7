use wikipath::error::{Error, Table};
use wikipath::metadata::{check_copy, check_path, check_tables, keep_newest, Metadata, Mode};

fn metadata(language: &str, date: &str) -> Metadata {
    Metadata { language_code: language.to_string(), date_code: date.to_string() }
}

#[test]
fn a_name_carries_language_and_date() {
    assert_eq!(metadata("en", "20240501").to_name(), "wp-en-20240501");
    assert_eq!(metadata("en", "20240501").to_tmp_name(), "wp-en-20240501-tmp");
}

#[test]
fn a_name_is_read_back() {
    assert_eq!(Metadata::from_name("wp-en-20240501"), Ok(metadata("en", "20240501")));
    assert_eq!(Metadata::from_name("wp-Simple-1"), Ok(metadata("Simple", "1")));
    let m = metadata("nl", "20231220");
    assert_eq!(Metadata::from_name(&m.to_name()), Ok(m));
}

#[test]
fn other_text_is_no_name() {
    for text in [
        "",
        "wp",
        "wp-",
        "wp-en",
        "wp-en-",
        "wp--20240501",
        "wp-en-2024x",
        "wp-en-20240501-tmp",
        "wp-e1-20240501",
        "xwp-en-20240501",
        "wp-en-20240501\n",
        "wq-en-20240501",
        "wp-\u{e9}-20240501",
        "wp-en-\u{664}",
    ] {
        assert_eq!(Metadata::from_name(text), Err(Error::InvalidArtifactPath));
    }
}

#[test]
fn dumps_of_one_language_are_ordered_by_date() {
    let old = metadata("en", "20240101");
    let new = metadata("en", "20240501");
    let other = metadata("de", "20240601");
    assert!(new.is_newer(&old));
    assert!(!old.is_newer(&new));
    assert!(old.is_older(&new));
    assert!(!new.is_older(&old));
    assert!(!new.is_newer(&new));
    assert!(!new.is_older(&new));
    assert!(!other.is_newer(&old));
    assert!(!old.is_older(&other));
}

#[test]
fn dates_compare_as_text() {
    assert!(metadata("en", "2024").is_older(&metadata("en", "20240101")));
    assert!(metadata("en", "9").is_newer(&metadata("en", "10")));
    assert!(metadata("en", "").is_older(&metadata("en", "1")));
}

#[test]
fn what_can_be_opened_at_a_path() {
    assert_eq!(check_path(Mode::Serve, true, false, "wp-en-20240501"), Ok(metadata("en", "20240501")));
    assert_eq!(check_path(Mode::Build, false, true, "wp-en-20240501"), Ok(metadata("en", "20240501")));
    assert_eq!(check_path(Mode::Serve, false, true, "wp-en-20240501"), Err(Error::NotADatabase));
    assert_eq!(check_path(Mode::Build, true, false, "wp-en-20240501"), Err(Error::NotADatabase));
    assert_eq!(check_path(Mode::Build, false, false, "nothing"), Err(Error::NotADatabase));
    assert_eq!(check_path(Mode::Serve, true, false, "notes.txt"), Err(Error::InvalidArtifactPath));
    assert_eq!(check_tables(true, true, true), Ok(()));
    assert_eq!(check_tables(true, false, true), Err(Error::MissingTable));
    assert_eq!(check_tables(false, false, false), Err(Error::MissingTable));
}

#[test]
fn what_can_be_copied_to_the_path_to_serve_from() {
    assert_eq!(check_copy(Mode::Build, false), Ok(()));
    assert_eq!(check_copy(Mode::Build, true), Err(Error::ArtifactAlreadyExists));
    assert_eq!(check_copy(Mode::Serve, false), Err(Error::NotADatabase));
    assert_eq!(check_copy(Mode::Serve, true), Err(Error::NotADatabase));
}

#[test]
fn failures_in_words() {
    assert_eq!(
        Error::SchemaDrift(Table::LinkTarget).message(),
        "nothing parsed from table linktarget, possibly caused by schema changes"
    );
    assert_eq!(Error::ArtifactAlreadyExists.message(), "the database exists already");
    let all = [
        Error::InvalidArtifactPath,
        Error::ArtifactAlreadyExists,
        Error::SchemaDrift(Table::Page),
        Error::SchemaDrift(Table::Redirect),
        Error::SchemaDrift(Table::PageLinks),
        Error::IntegrityViolation,
        Error::ResourceExhausted,
        Error::IoError,
        Error::NotFound,
        Error::NotADatabase,
        Error::CorruptArtifact,
        Error::MissingTable,
    ];
    for (i, a) in all.iter().enumerate() {
        assert!(!a.message().contains('\n'));
        for b in &all[i + 1..] {
            assert_ne!(a.message(), b.message());
        }
    }
    assert_eq!(Table::Page.name(), "page");
    assert_eq!(Table::PageLinks.name(), "pagelinks");
}

#[test]
fn what_a_build_makes_superfluous() {
    let anchor = metadata("en", "20240501");
    assert!(metadata("en", "20240101").is_other_date_of(&anchor));
    assert!(metadata("en", "20250101").is_other_date_of(&anchor));
    assert!(!metadata("en", "20240501").is_other_date_of(&anchor));
    assert!(!metadata("de", "20240101").is_other_date_of(&anchor));
}

#[test]
fn of_each_language_the_latest_dump_is_kept() {
    let found = vec![
        metadata("en", "20240501"),
        metadata("de", "20240301"),
        metadata("en", "20240601"),
        metadata("de", "20240201"),
        metadata("fr", "20230101"),
        metadata("en", "20240601"),
    ];
    assert_eq!(keep_newest(&found), vec![1, 2, 4, 5]);
    assert_eq!(keep_newest(&vec![]), Vec::<usize>::new());
    assert_eq!(keep_newest(&vec![metadata("en", "1")]), vec![0]);
}
