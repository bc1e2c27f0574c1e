use dump_import::batch::{collect_batches, SegmentReader};
use dump_import::lexer::LexError;
use dump_import::segment::segment_dump;

fn dump() -> Vec<u8> {
    let mut d = Vec::new();
    d.extend_from_slice(b"-- TABLE: user --\n");
    d.extend_from_slice(b"DEFINE TABLE user;\n");
    d.extend_from_slice(b"-- TABLE DATA: user --\n");
    d.extend_from_slice(b"INSERT u1;\n");
    d.extend_from_slice(b"INSERT u2;\n");
    d.extend_from_slice(b"-- TABLE: post --\n");
    d.extend_from_slice(b"DEFINE TABLE post;\n");
    d.extend_from_slice(b"-- TABLE DATA: post --\n");
    d.extend_from_slice(b"INSERT p1;\n");
    d
}

#[test]
fn segmenter_indexes_definitions_and_tables() {
    let idx = segment_dump(&dump()).expect("clean dump");
    assert_eq!(
        idx.definitions,
        vec![b"DEFINE TABLE user;\n".to_vec(), b"DEFINE TABLE post;\n".to_vec()]
    );
    assert_eq!(idx.tables.len(), 2);
    assert_eq!(idx.tables[0].name, b"user".to_vec());
    assert_eq!(idx.tables[0].statements, 2);
    assert_eq!(idx.tables[1].name, b"post".to_vec());
    assert_eq!(idx.tables[1].statements, 1);
}

#[test]
fn segment_counts_cover_every_statement_once() {
    // Total statements in the dump: two definitions and three data rows.
    let idx = segment_dump(&dump()).expect("clean dump");
    let total: u64 = idx.definitions.len() as u64
        + idx.tables.iter().map(|t| t.statements).sum::<u64>();
    assert_eq!(total, 5);
}

#[test]
fn segment_offset_is_the_first_data_statement() {
    let d = dump();
    let idx = segment_dump(&d).expect("clean dump");
    let text = String::from_utf8(d.clone()).unwrap();
    let first_u = text.find("INSERT u1").unwrap() as u64;
    let first_p = text.find("INSERT p1").unwrap() as u64;
    assert_eq!(idx.tables[0].offset, first_u);
    assert_eq!(idx.tables[1].offset, first_p);
}

#[test]
fn relexing_a_segment_reproduces_its_statements() {
    let d = dump();
    let idx = segment_dump(&d).expect("clean dump");
    let mut reader = SegmentReader::open_segment(d.clone(), &idx.tables[0]);
    let batches = collect_batches(&mut reader, 1_000_000).expect("clean");
    let statements: Vec<Vec<u8>> = batches.into_iter().flatten().collect();
    assert_eq!(statements, vec![b"INSERT u1;\n".to_vec(), b"INSERT u2;\n".to_vec()]);

    let mut reader = SegmentReader::open_segment(d, &idx.tables[1]);
    let batches = collect_batches(&mut reader, 1_000_000).expect("clean");
    let statements: Vec<Vec<u8>> = batches.into_iter().flatten().collect();
    assert_eq!(statements, vec![b"INSERT p1;\n".to_vec()]);
}

#[test]
fn data_section_at_end_of_file_is_still_emitted() {
    let mut d = Vec::new();
    d.extend_from_slice(b"-- TABLE DATA: tail --\n");
    d.extend_from_slice(b"INSERT t1;\n");
    d.extend_from_slice(b"INSERT t2");
    let idx = segment_dump(&d).expect("clean dump");
    assert_eq!(idx.definitions.len(), 0);
    assert_eq!(idx.tables.len(), 1);
    assert_eq!(idx.tables[0].name, b"tail".to_vec());
    assert_eq!(idx.tables[0].statements, 2);
}

#[test]
fn empty_dump_yields_an_empty_index() {
    let idx = segment_dump(&Vec::new()).expect("clean dump");
    assert_eq!(idx.definitions.len(), 0);
    assert_eq!(idx.tables.len(), 0);
}

#[test]
fn non_structural_comments_do_not_change_sections() {
    let mut d = Vec::new();
    d.extend_from_slice(b"-- OPTION: IMPORT\n");
    d.extend_from_slice(b"DEFINE a;\n");
    d.extend_from_slice(b"-- progress note --\n");
    d.extend_from_slice(b"DEFINE b;\n");
    let idx = segment_dump(&d).expect("clean dump");
    assert_eq!(idx.definitions.len(), 2);
    assert_eq!(idx.tables.len(), 0);
}

#[test]
fn segmenter_reports_lex_trouble() {
    let d = b"INSERT {\n-- oops\n};\n".to_vec();
    match segment_dump(&d) {
        Err(LexError::CommentInsideQuery) => {}
        other => panic!("expected a lex error, got {:?}", other),
    }
}
