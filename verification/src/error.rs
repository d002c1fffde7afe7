//! The kinds of failure that the library reports.

use vstd::prelude::*;
use vstd::string::StringExecFns;

verus! {

/// The dump table that a build stage reads.
#[derive(Debug, Clone, Copy, PartialEq, Eq, Structural)]
pub enum Table {
    Page,
    Redirect,
    LinkTarget,
    PageLinks,
}

/// What went wrong.
#[derive(Debug, Clone, Copy, PartialEq, Eq, Structural)]
pub enum Error {
    /// A file name that is not of the form that names carry.
    InvalidArtifactPath,
    /// The final path of a build is occupied.
    ArtifactAlreadyExists,
    /// A stage of the build parsed no row at all from its table.
    SchemaDrift(Table),
    /// A structural invariant of the database does not hold.
    IntegrityViolation,
    /// A memory or size limit was already exceeded.
    ResourceExhausted,
    /// A file could not be read or decompressed.
    IoError,
    /// What was asked for is not there.
    NotFound,
    /// The path does not hold a database.
    NotADatabase,
    /// A stored value is not a whole number of page ids.
    CorruptArtifact,
    /// One of the three tables is absent.
    MissingTable,
}

impl Table {
    /// The name of the table in the dumps.
    pub open spec fn name_text(self) -> Seq<char> {
        match self {
            Table::Page => "page"@,
            Table::Redirect => "redirect"@,
            Table::LinkTarget => "linktarget"@,
            Table::PageLinks => "pagelinks"@,
        }
    }

    /// The name of the table in the dumps.
    pub fn name(self) -> (name: &'static str)
        ensures
            name@ == self.name_text(),
    {
        match self {
            Table::Page => "page",
            Table::Redirect => "redirect",
            Table::LinkTarget => "linktarget",
            Table::PageLinks => "pagelinks",
        }
    }
}

impl Error {
    /// The failure in words, on one line.
    pub open spec fn message_text(self) -> Seq<char> {
        match self {
            Error::InvalidArtifactPath => "the name is not valid"@,
            Error::ArtifactAlreadyExists => "the database exists already"@,
            Error::SchemaDrift(table) => "nothing parsed from table "@ + table.name_text()
                + ", possibly caused by schema changes"@,
            Error::IntegrityViolation => "the tables of the database do not agree"@,
            Error::ResourceExhausted => "more memory is in use than the limit allows"@,
            Error::IoError => "a file could not be read or decompressed"@,
            Error::NotFound => "not found"@,
            Error::NotADatabase => "the path holds no database"@,
            Error::CorruptArtifact => "a stored value is corrupt"@,
            Error::MissingTable => "the database is missing a table"@,
        }
    }

    /// The failure in words, on one line.
    pub fn message(self) -> (message: String)
        ensures
            message@ == self.message_text(),
    {
        match self {
            Error::InvalidArtifactPath => String::from_str("the name is not valid"),
            Error::ArtifactAlreadyExists => String::from_str("the database exists already"),
            Error::SchemaDrift(table) => {
                let mut message = String::from_str("nothing parsed from table ");
                message.append(table.name());
                message.append(", possibly caused by schema changes");
                message
            },
            Error::IntegrityViolation => String::from_str("the tables of the database do not agree"),
            Error::ResourceExhausted => String::from_str(
                "more memory is in use than the limit allows",
            ),
            Error::IoError => String::from_str("a file could not be read or decompressed"),
            Error::NotFound => String::from_str("not found"),
            Error::NotADatabase => String::from_str("the path holds no database"),
            Error::CorruptArtifact => String::from_str("a stored value is corrupt"),
            Error::MissingTable => String::from_str("the database is missing a table"),
        }
    }
}

} // verus!
