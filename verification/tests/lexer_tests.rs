use dump_import::lexer::{LexError, Statement, StatementStream};

fn tokens_of(input: &[u8]) -> Vec<(u64, Statement)> {
    let mut st = StatementStream::new(input.to_vec());
    let mut out = Vec::new();
    while let Some(r) = st.next_statement() {
        out.push(r.expect("lexing should succeed"));
    }
    out
}

#[test]
fn comment_line_is_one_token_without_newline() {
    let toks = tokens_of(b"-- TABLE: users --\n");
    assert_eq!(toks.len(), 1);
    assert_eq!(toks[0].0, 0);
    assert_eq!(toks[0].1, Statement::Comment(b"-- TABLE: users --".to_vec()));
}

#[test]
fn query_accumulates_lines_until_terminator() {
    let toks = tokens_of(b"INSERT INTO users {\n  x: 1\n};\nDEFINE x;\n");
    assert_eq!(toks.len(), 2);
    assert_eq!(
        toks[0].1,
        Statement::Query(b"INSERT INTO users {\n  x: 1\n};\n".to_vec())
    );
    assert_eq!(toks[0].0, 0);
    assert_eq!(toks[1].1, Statement::Query(b"DEFINE x;\n".to_vec()));
    assert_eq!(toks[1].0, 30);
}

#[test]
fn semicolon_mid_line_does_not_terminate() {
    let toks = tokens_of(b"a; b\nc;\n");
    assert_eq!(toks.len(), 1);
    assert_eq!(toks[0].1, Statement::Query(b"a; b\nc;\n".to_vec()));
}

#[test]
fn trailing_statement_without_terminator_is_flushed() {
    let toks = tokens_of(b"SELECT 1");
    assert_eq!(toks.len(), 1);
    assert_eq!(toks[0].1, Statement::Query(b"SELECT 1".to_vec()));
}

#[test]
fn trailing_statement_with_semicolon_but_no_newline_is_flushed() {
    let toks = tokens_of(b"DEFINE x;\nSELECT 1;");
    assert_eq!(toks.len(), 2);
    assert_eq!(toks[1].1, Statement::Query(b"SELECT 1;".to_vec()));
    assert_eq!(toks[1].0, 10);
}

#[test]
fn comment_inside_statement_is_an_error() {
    let mut st = StatementStream::new(b"INSERT {\n-- oops\n};\n".to_vec());
    match st.next_statement() {
        Some(Err(LexError::CommentInsideQuery)) => {}
        other => panic!("expected a lex error, got {:?}", other),
    }
}

#[test]
fn empty_input_ends_immediately() {
    let mut st = StatementStream::new(Vec::new());
    assert!(st.next_statement().is_none());
}

#[test]
fn offsets_allow_relexing_from_a_token_start() {
    let input = b"-- head\nDEFINE a;\nINSERT b;\n".to_vec();
    let toks = tokens_of(&input);
    assert_eq!(toks.len(), 3);
    let (off, stmt) = &toks[2];
    let mut again = StatementStream::new_at(input.clone(), *off);
    let (off2, stmt2) = again.next_statement().unwrap().unwrap();
    assert_eq!(*off, off2);
    assert_eq!(stmt, &stmt2);
}

#[test]
fn into_inner_returns_the_input() {
    let input = b"DEFINE a;\n".to_vec();
    let st = StatementStream::new(input.clone());
    assert_eq!(st.into_inner(), input);
}
