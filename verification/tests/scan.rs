use wikipath::error::Table;
use wikipath::scan::{
    chunk_count, max_match_size, parser_count, pattern, scan_bytes, scan_chunk, Chunk, RawRow,
    CHUNK_SIZE,
};

fn fields(rows: &[RawRow]) -> Vec<(String, String)> {
    rows.iter()
        .map(|row| {
            (
                String::from_utf8(row.first.clone()).unwrap(),
                String::from_utf8(row.second.clone()).unwrap(),
            )
        })
        .collect()
}

fn pairs(rows: &[(&str, &str)]) -> Vec<(String, String)> {
    rows.iter().map(|(first, second)| (first.to_string(), second.to_string())).collect()
}

#[test]
fn the_greatest_row_of_each_table() {
    assert_eq!(max_match_size(Table::Page), 440);
    assert_eq!(max_match_size(Table::Redirect), 565);
    assert_eq!(max_match_size(Table::LinkTarget), 282);
    assert_eq!(max_match_size(Table::PageLinks), 35);
}

#[test]
fn the_patterns_differ() {
    assert_ne!(pattern(Table::Page), pattern(Table::Redirect));
    assert_eq!(pattern(Table::PageLinks), r"\(([0-9]{1,10}),0,([0-9]{1,20})\)");
}

#[test]
fn rows_of_a_chunk() {
    let text = b"INSERT INTO `pagelinks` VALUES (1,0,5),(2,0,6),(3,1,7),(44,0,123456789012);";
    let rows = scan_chunk(Table::PageLinks, text, 0);
    assert_eq!(fields(&rows), pairs(&[("1", "5"), ("2", "6"), ("44", "123456789012")]));
    assert_eq!(
        rows,
        vec![
            RawRow { first: b"1".to_vec(), second: b"5".to_vec(), start: 31, end: 38 },
            RawRow { first: b"2".to_vec(), second: b"6".to_vec(), start: 39, end: 46 },
            RawRow { first: b"44".to_vec(), second: b"123456789012".to_vec(), start: 55, end: 74 },
        ]
    );
    for row in &rows {
        assert_eq!(text[row.start], b'(');
        assert_eq!(text[row.end - 1], b')');
    }
    assert_eq!(scan_chunk(Table::PageLinks, b"no row here", 0), vec![]);
    assert_eq!(scan_chunk(Table::PageLinks, b"", 0), vec![]);
}

#[test]
fn rows_that_end_in_the_repeated_bytes_are_passed_over() {
    let text = b"(1,0,5),(2,0,6),(3,0,7)";
    // The first row ends at 7, the second at 15, the third at 23.
    let ends = |repeated: usize| -> Vec<usize> {
        scan_chunk(Table::PageLinks, text, repeated).iter().map(|row| row.end).collect()
    };
    assert_eq!(ends(0), vec![7, 15, 23]);
    assert_eq!(ends(1), vec![7, 15, 23]);
    assert_eq!(ends(6), vec![7, 15, 23]);
    assert_eq!(ends(7), vec![15, 23]);
    assert_eq!(ends(14), vec![15, 23]);
    assert_eq!(ends(15), vec![23]);
    assert_eq!(ends(22), vec![23]);
    assert_eq!(ends(23), Vec::<usize>::new());
}

#[test]
fn a_chunk_hands_out_what_is_new_in_it() {
    let mut first = Chunk::new(16);
    first.append(b"(1,0,5),(2,0,6),");
    assert_eq!(fields(&first.rows(Table::PageLinks)), pairs(&[("1", "5"), ("2", "6")]));
    let mut second = Chunk::new(16);
    assert_eq!(second.carry_over(&first, 8), 8);
    assert_eq!(second.carried, 8);
    second.append(b"(3,0,7),");
    assert_eq!(second.valid(), b"(2,0,6),(3,0,7),");
    // The row of page 2 lies in the repeated bytes: the first chunk gave it.
    assert_eq!(fields(&second.rows(Table::PageLinks)), pairs(&[("3", "7")]));
}

#[test]
fn rows_of_the_page_table() {
    let text = b"(12,0,'Anarchism',0,0,0.786172332974311,'20240418181826','20240418202621',1219546113,110759,'wikitext',NULL),(13,1,'Talk',0,0,0.5,'20240418181826',NULL,1,2,NULL,NULL),(14,0,'B_C',1,0,0.25,'20240418181826',NULL,1,2,NULL,NULL)";
    assert_eq!(
        fields(&scan_chunk(Table::Page, text, 0)),
        pairs(&[("12", "Anarchism"), ("14", "B_C")])
    );
}

#[test]
fn rows_of_the_redirect_and_the_link_target_table() {
    assert_eq!(
        fields(&scan_chunk(
            Table::Redirect,
            b"(10,0,'Computer_accessibility','',''),(11,4,'X','','')",
            0
        )),
        pairs(&[("10", "Computer_accessibility")])
    );
    assert_eq!(
        fields(&scan_chunk(
            Table::LinkTarget,
            b"(1,0,'A'),(2,10,'T'),(18446744073709551615,0,'')",
            0
        )),
        pairs(&[("1", "A"), ("18446744073709551615", "")])
    );
}

#[test]
fn an_empty_dump_has_no_rows() {
    for table in [Table::Page, Table::Redirect, Table::LinkTarget, Table::PageLinks] {
        assert_eq!(scan_bytes(table, b"", 1024), vec![]);
    }
}

#[test]
fn a_row_across_a_cut_is_found_once() {
    // The chunks hold 64 bytes; the greatest row of the table has 35.
    let chunk_size = 64;
    let row_text = b"(1234567890,0,12345678901234567890)";
    assert_eq!(row_text.len(), 35);
    for cut in [64usize, 93, 122, 128, 151, 192] {
        for back in 0..=35usize {
            let at = cut - back;
            let mut data = vec![b'x'; 4 * chunk_size];
            data[at..at + row_text.len()].copy_from_slice(row_text);
            let rows = scan_bytes(Table::PageLinks, &data, chunk_size);
            assert_eq!(
                rows,
                vec![RawRow {
                    first: b"1234567890".to_vec(),
                    second: b"12345678901234567890".to_vec(),
                    start: at,
                    end: at + 35,
                }],
                "cut {cut}, back {back}"
            );
        }
    }
}

#[test]
fn scanning_in_chunks_finds_each_row_of_the_whole_once() {
    let mut data = Vec::new();
    for i in 0..200u32 {
        data.extend_from_slice(format!("({},0,{}),", i, i + 1000).as_bytes());
    }
    let whole = scan_chunk(Table::PageLinks, &data, 0);
    assert_eq!(whole.len(), 200);
    for chunk_size in [36usize, 37, 50, 64, 100, 1000, 10_000] {
        let rows = scan_bytes(Table::PageLinks, &data, chunk_size);
        assert_eq!(rows.len(), 200, "chunk size {chunk_size}");
        assert_eq!(rows, whole, "chunk size {chunk_size}");
        for pair in rows.windows(2) {
            assert!(pair[0].end < pair[1].end);
        }
    }
}

#[test]
fn a_chunk_takes_over_the_end_of_the_one_before() {
    let mut prev = Chunk::new(8);
    prev.append(b"abcdef");
    assert_eq!(prev.valid(), b"abcdef");
    let mut next = Chunk::new(8);
    assert_eq!(next.carry_over(&prev, 4), 4);
    assert_eq!(next.valid(), b"cdef");
    next.append(b"gh");
    assert_eq!(next.valid(), b"cdefgh");
    let mut short = Chunk::new(8);
    assert_eq!(short.carry_over(&prev, 7), 6);
    assert_eq!(short.valid(), b"abcdef");
    let mut none = Chunk::new(8);
    assert_eq!(none.carry_over(&Chunk::new(8), 4), 0);
    assert_eq!(none.valid(), b"");
}

#[test]
fn threads_and_chunks() {
    assert_eq!(parser_count(0), 1);
    assert_eq!(parser_count(1), 1);
    assert_eq!(parser_count(2), 1);
    assert_eq!(parser_count(3), 2);
    assert_eq!(parser_count(16), 15);
    assert_eq!(chunk_count(1), 2);
    assert_eq!(chunk_count(16), 30);
    assert_eq!(chunk_count(usize::MAX), usize::MAX);
    assert_eq!(CHUNK_SIZE, 1 << 20);
    for table in [Table::Page, Table::Redirect, Table::LinkTarget, Table::PageLinks] {
        assert!(CHUNK_SIZE >= 16 * max_match_size(table));
    }
}
