//! A graph database of the hyperlinks between the articles of one Wikipedia
//! language edition, and the search for all shortest link paths between two
//! articles.
//!
//! The crate holds the rules of the system as verified code: how dump rows
//! become pages, redirects and links, how redirects are flattened, how
//! adjacency lists are stored, and how the bidirectional search finds and
//! counts the shortest paths.
//!
//! Reading dumps: `scan` cuts a dump into chunks and finds the rows, `parse`
//! and `titles` say what the rows mean, `redirects` flattens the redirects.
//! Storing: `adjacency` and `encoding` define the lists at rest, `database`
//! holds the three tables, `batch` stages links on their way in, `builder`
//! orders the stages of a build. Searching: `graph` defines distances,
//! `frontier` advances one side of the search, `extract` walks back from the
//! meeting pages, `search` puts them together, level by level, and `walks`
//! with `sums` shows that the count is the number of shortest walks.

pub mod adjacency;
pub mod batch;
pub mod builder;
pub mod database;
pub mod dump;
pub mod encoding;
pub mod error;
pub mod extract;
pub mod frontier;
pub mod graph;
pub mod gzip;
pub mod memory;
pub mod metadata;
pub mod parse;
pub mod redirects;
pub mod scan;
pub mod search;
pub mod sums;
pub mod titles;
pub mod walks;

pub use batch::{IncomingLinkBatch, LinkInserter};
pub use builder::{Dumps, Stage};
pub use database::{Database, LinkTargetId, PageId};
pub use dump::{
    Dump, ExternalDumpFiles, TableDumpFileMetadata, TableDumpFileMetadatas, TableDumpFiles,
};
pub use error::{Error, Table};
pub use memory::MemUsage;
pub use metadata::{Metadata, Mode};
pub use redirects::cleanup_redirects;
pub use scan::Chunk;
pub use search::{Meeting, Paths};
