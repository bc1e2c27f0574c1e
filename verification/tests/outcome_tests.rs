use dump_import::batch::{collect_batches, SegmentReader};
use dump_import::outcome::{
    batch_failure_record, build_import_body, evaluate_import, message_is_secondary, ImportOutcome,
    StatementResult,
};
use dump_import::segment::segment_dump;

const SECONDARY: &[u8] = b"not executed due to a failed transaction";

fn ok() -> StatementResult {
    StatementResult { failed: false, message: Vec::new() }
}

fn fail(msg: &[u8]) -> StatementResult {
    StatementResult { failed: true, message: msg.to_vec() }
}

#[test]
fn primary_failure_is_attributed_at_its_absolute_index() {
    // Statements one and two succeed, the third fails for a reason of its
    // own, and the three after it only report the aborted transaction.
    let results = vec![
        ok(),
        ok(),
        fail(b"duplicate key"),
        fail(SECONDARY),
        fail(SECONDARY),
        fail(SECONDARY),
    ];
    match evaluate_import(&results, 0) {
        ImportOutcome::PrimaryFailure { index, message } => {
            assert_eq!(index, 2);
            assert_eq!(message, b"duplicate key".to_vec());
        }
        other => panic!("expected a primary failure, got {:?}", other),
    }
    // The same batch later in the segment reports a shifted absolute index.
    match evaluate_import(&results, 100) {
        ImportOutcome::PrimaryFailure { index, .. } => assert_eq!(index, 102),
        other => panic!("expected a primary failure, got {:?}", other),
    }
}

#[test]
fn all_secondary_failures_are_unresolved() {
    let results = vec![ok(), fail(SECONDARY), fail(SECONDARY)];
    assert_eq!(evaluate_import(&results, 0), ImportOutcome::Unresolved);
}

#[test]
fn no_failures_is_success() {
    let results = vec![ok(), ok()];
    assert_eq!(evaluate_import(&results, 0), ImportOutcome::Success);
    assert_eq!(evaluate_import(&Vec::new(), 7), ImportOutcome::Success);
}

#[test]
fn first_of_several_primaries_wins() {
    let results = vec![fail(SECONDARY), fail(b"first"), fail(b"second")];
    match evaluate_import(&results, 0) {
        ImportOutcome::PrimaryFailure { index, message } => {
            assert_eq!(index, 1);
            assert_eq!(message, b"first".to_vec());
        }
        other => panic!("expected a primary failure, got {:?}", other),
    }
}

#[test]
fn secondary_phrase_is_matched_inside_longer_messages() {
    let mut long = b"statement was ".to_vec();
    long.extend_from_slice(SECONDARY);
    long.extend_from_slice(b", see above");
    assert!(message_is_secondary(&long));
    assert!(message_is_secondary(&SECONDARY.to_vec()));
    // A near miss is a primary failure, not a cascade.
    assert!(!message_is_secondary(
        &b"not executed due to failed transaction".to_vec()
    ));
    assert!(!message_is_secondary(&b"duplicate key".to_vec()));
}

#[test]
fn failure_record_keeps_errors_and_batch_in_order() {
    let results = vec![fail(b"e1"), ok(), fail(b"e2")];
    let batch = vec![b"q1;\n".to_vec(), b"q2;\n".to_vec(), b"q3;\n".to_vec()];
    let record = batch_failure_record(&results, &batch).expect("failures present");
    assert_eq!(record.errors, vec![b"e1".to_vec(), b"e2".to_vec()]);
    assert_eq!(record.queries, batch);
}

#[test]
fn no_record_without_failures() {
    let results = vec![ok(), ok()];
    let batch = vec![b"q1;\n".to_vec()];
    assert!(batch_failure_record(&results, &batch).is_none());
}

#[test]
fn import_body_wraps_the_batch_in_one_transaction() {
    let batch = vec![b"INSERT a;\n".to_vec(), b"INSERT b;\n".to_vec()];
    let body = build_import_body(&batch);
    assert_eq!(
        body,
        b"BEGIN TRANSACTION;\nOPTION IMPORT;\nINSERT a;\n\nINSERT b;\n\nCOMMIT TRANSACTION;"
            .to_vec()
    );
    let empty = build_import_body(&Vec::new());
    assert_eq!(
        empty,
        b"BEGIN TRANSACTION;\nOPTION IMPORT;\n\nCOMMIT TRANSACTION;".to_vec()
    );
}

#[test]
fn one_failing_table_leaves_the_others_complete() {
    // Three tables imported one after the other; the sink rejects every
    // statement of the middle one. Every table is still processed and
    // exactly one failure artifact is produced.
    let mut d = Vec::new();
    d.extend_from_slice(b"-- TABLE DATA: a --\n");
    d.extend_from_slice(b"INSERT a1;\n");
    d.extend_from_slice(b"-- TABLE: b --\n");
    d.extend_from_slice(b"-- TABLE DATA: b --\n");
    d.extend_from_slice(b"INSERT b1;\n");
    d.extend_from_slice(b"-- TABLE: c --\n");
    d.extend_from_slice(b"-- TABLE DATA: c --\n");
    d.extend_from_slice(b"INSERT c1;\n");
    let idx = segment_dump(&d).expect("clean dump");
    assert_eq!(idx.tables.len(), 3);

    let mut records = Vec::new();
    let mut completed_tables = 0;
    for t in &idx.tables {
        let mut reader = SegmentReader::open_segment(d.clone(), t);
        let batches = collect_batches(&mut reader, 1_000_000).expect("clean");
        for batch in &batches {
            // The sink fails every statement of table `b` with a real error.
            let results: Vec<StatementResult> = batch
                .iter()
                .map(|_| {
                    if t.name == b"b".to_vec() {
                        fail(b"disk full")
                    } else {
                        ok()
                    }
                })
                .collect();
            if let Some(r) = batch_failure_record(&results, batch) {
                records.push((t.name.clone(), r));
            }
        }
        completed_tables += 1;
    }
    assert_eq!(completed_tables, 3);
    assert_eq!(records.len(), 1);
    assert_eq!(records[0].0, b"b".to_vec());
    assert_eq!(records[0].1.errors, vec![b"disk full".to_vec()]);
}
