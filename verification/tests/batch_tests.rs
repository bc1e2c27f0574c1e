use dump_import::batch::{collect_batches, count_statements, skip_statements, SegmentReader};
use dump_import::lexer::{Statement, StatementStream};
use dump_import::segment::segment_dump;

#[test]
fn batch_stops_once_byte_target_is_reached() {
    // Five statements of 10 bytes each, target 25: a batch may exceed the
    // target by at most its last statement.
    let mut d = Vec::new();
    for _ in 0..5 {
        d.extend_from_slice(b"AAAAAAAA;\n");
    }
    let mut reader = SegmentReader::new(d, 0, u64::MAX, false);
    let batches = collect_batches(&mut reader, 25).expect("clean");
    assert_eq!(batches.len(), 2);
    assert_eq!(batches[0].len(), 3);
    assert_eq!(batches[1].len(), 2);
    for b in &batches {
        let all_but_last: usize = b[..b.len() - 1].iter().map(|q| q.len()).sum();
        assert!(all_but_last < 25);
    }
}

#[test]
fn segment_reader_never_reads_past_a_table_boundary() {
    let mut d = Vec::new();
    d.extend_from_slice(b"-- TABLE DATA: a --\n");
    d.extend_from_slice(b"INSERT a1;\n");
    d.extend_from_slice(b"-- TABLE: b --\n");
    d.extend_from_slice(b"DEFINE b;\n");
    let idx = segment_dump(&d).expect("clean dump");
    // Give the reader a too-large statement allowance on purpose: the
    // boundary must stop it anyway.
    let mut reader = SegmentReader::new(d, idx.tables[0].offset, 100, true);
    let batches = collect_batches(&mut reader, 1_000_000).expect("clean");
    let statements: Vec<Vec<u8>> = batches.into_iter().flatten().collect();
    assert_eq!(statements, vec![b"INSERT a1;\n".to_vec()]);
}

#[test]
fn statement_limit_stops_a_reader() {
    let d = b"INSERT a;\nINSERT b;\nINSERT c;\n".to_vec();
    let mut reader = SegmentReader::new(d, 0, 2, false);
    let batches = collect_batches(&mut reader, 1_000_000).expect("clean");
    let statements: Vec<Vec<u8>> = batches.into_iter().flatten().collect();
    assert_eq!(statements, vec![b"INSERT a;\n".to_vec(), b"INSERT b;\n".to_vec()]);
}

#[test]
fn whole_stream_mode_passes_table_boundaries_between_batches() {
    let mut d = Vec::new();
    d.extend_from_slice(b"DEFINE a;\n");
    d.extend_from_slice(b"-- TABLE: t --\n");
    d.extend_from_slice(b"DEFINE t;\n");
    let mut reader = SegmentReader::new(d, 0, u64::MAX, false);
    let batches = collect_batches(&mut reader, 1_000_000).expect("clean");
    // The boundary ends the first batch but not the run.
    assert_eq!(batches.len(), 2);
    assert_eq!(batches[0], vec![b"DEFINE a;\n".to_vec()]);
    assert_eq!(batches[1], vec![b"DEFINE t;\n".to_vec()]);
}

#[test]
fn count_statements_counts_queries_only() {
    let mut d = Vec::new();
    d.extend_from_slice(b"-- note --\n");
    d.extend_from_slice(b"DEFINE a;\n");
    d.extend_from_slice(b"-- TABLE DATA: t --\n");
    d.extend_from_slice(b"INSERT 1;\n");
    d.extend_from_slice(b"INSERT 2;\n");
    assert_eq!(count_statements(&d).expect("clean"), 3);
}

#[test]
fn skip_skips_exactly_n_statements_ignoring_comments() {
    let mut d = Vec::new();
    d.extend_from_slice(b"-- one --\n");
    d.extend_from_slice(b"q1;\n");
    d.extend_from_slice(b"-- two --\n");
    d.extend_from_slice(b"q2;\n");
    d.extend_from_slice(b"q3;\n");
    let mut st = StatementStream::new(d);
    skip_statements(&mut st, 2).expect("clean");
    let (_, stmt) = st.next_statement().unwrap().unwrap();
    assert_eq!(stmt, Statement::Query(b"q3;\n".to_vec()));
}

#[test]
fn resume_from_count_restarts_at_the_next_statement() {
    let mut d = Vec::new();
    d.extend_from_slice(b"q1;\n");
    d.extend_from_slice(b"-- pause --\n");
    d.extend_from_slice(b"q2;\n");
    d.extend_from_slice(b"q3;\n");
    d.extend_from_slice(b"q4;\n");
    let total = count_statements(&d).expect("clean");
    assert_eq!(total, 4);
    let mut st = StatementStream::new(d.clone());
    skip_statements(&mut st, 2).expect("clean");
    let pos = st.position();
    let mut reader = SegmentReader::new(d, pos, total - 2, false);
    let batches = collect_batches(&mut reader, 1_000_000).expect("clean");
    let statements: Vec<Vec<u8>> = batches.into_iter().flatten().collect();
    assert_eq!(statements, vec![b"q3;\n".to_vec(), b"q4;\n".to_vec()]);
}

#[test]
fn skipping_more_than_available_stops_at_the_end() {
    let d = b"q1;\nq2;\n".to_vec();
    let mut st = StatementStream::new(d);
    skip_statements(&mut st, 10).expect("clean");
    assert!(st.next_statement().is_none());
}
