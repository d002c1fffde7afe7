use flate2::write::GzEncoder;
use flate2::Compression;
use std::io::Write;
use wikipath::builder::Dumps;
use wikipath::database::Database;
use wikipath::error::Error;
use wikipath::gzip::decompress;
use wikipath::metadata::Metadata;

fn gz(content: &[u8]) -> Vec<u8> {
    let mut encoder = GzEncoder::new(Vec::new(), Compression::default());
    encoder.write_all(content).unwrap();
    encoder.finish().unwrap()
}

#[test]
fn compressed_content_is_read_back() {
    let content = b"INSERT INTO `pagelinks` VALUES (1,0,5),(2,0,6);".repeat(100);
    let compressed = gz(&content);
    assert_ne!(compressed, content);
    assert_eq!(decompress(&compressed), Ok(content));
    assert_eq!(decompress(&gz(b"")), Ok(vec![]));
}

#[test]
fn what_is_not_compressed_cannot_be_read() {
    assert_eq!(decompress(b"INSERT INTO `pagelinks` VALUES (1,0,5);"), Err(Error::IoError));
    assert_eq!(decompress(b""), Err(Error::IoError));
    let mut cut = gz(&b"some content that is long enough to be cut".repeat(20));
    cut.truncate(cut.len() / 2);
    assert_eq!(decompress(&cut), Err(Error::IoError));
}

#[test]
fn a_database_from_compressed_dumps() {
    let page = b"(1,0,'A',0,0,0.5,'20240418181826',NULL,1,10,NULL,NULL),(2,0,'B',0,0,0.5,'20240418181826',NULL,1,10,NULL,NULL),(3,0,'C',0,0,0.5,'20240418181826',NULL,1,10,NULL,NULL)";
    let redirect = b"(1,0,'B','','')";
    let linktarget = b"(10,0,'A'),(20,0,'B'),(30,0,'C')";
    let pagelinks = b"(2,0,30),(1,0,30),(3,0,10)";
    let dumps =
        Dumps::from_compressed(&gz(page), &gz(redirect), &gz(linktarget), &gz(pagelinks)).unwrap();
    assert_eq!(dumps.pagelinks, pagelinks.to_vec());
    let metadata = Metadata { language_code: "en".to_string(), date_code: "20240501".to_string() };
    let db = Database::build(metadata, &dumps, 4096).unwrap();
    assert_eq!(db.redirects[&1], 2);
    assert_eq!(db.get_outgoing_links(2), vec![3]);
    assert_eq!(db.get_outgoing_links(3), vec![2]);
    assert_eq!(db.get_incoming_links(3), vec![2]);
    let paths = db.get_shortest_paths(1, 3);
    assert_eq!((paths.source, paths.source_is_redirect), (2, true));
    assert_eq!((paths.length, paths.count), (1, 1));

    let broken = Dumps::from_compressed(&gz(page), redirect, &gz(linktarget), &gz(pagelinks));
    assert_eq!(broken.err(), Some(Error::IoError));
}
