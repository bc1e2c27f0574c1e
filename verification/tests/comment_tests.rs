use dump_import::comment::{classify_comment, CommentClass};

fn classify(c: &[u8]) -> CommentClass {
    classify_comment(&c.to_vec())
}

#[test]
fn table_marker_with_decorative_padding() {
    assert_eq!(
        classify(b"-- TABLE: users --"),
        CommentClass::Table(b"users".to_vec())
    );
}

#[test]
fn table_marker_without_padding_classifies_the_same() {
    assert_eq!(
        classify(b"TABLE: users"),
        CommentClass::Table(b"users".to_vec())
    );
    assert_eq!(
        classify(b"--   TABLE: users   "),
        CommentClass::Table(b"users".to_vec())
    );
}

#[test]
fn table_data_marker() {
    assert_eq!(
        classify(b"-- TABLE DATA: person --"),
        CommentClass::TableData(b"person".to_vec())
    );
}

#[test]
fn marker_value_is_trimmed_of_colons_and_spaces() {
    assert_eq!(
        classify(b"-- TABLE:   spaced  --"),
        CommentClass::Table(b"spaced".to_vec())
    );
}

#[test]
fn colon_without_space_is_not_a_marker_split() {
    // Without a `": "` there is no key/value split: the whole trimmed text
    // is the key, and `TABLE:users` is not the key `TABLE`.
    assert_eq!(
        classify(b"--TABLE:users"),
        CommentClass::Note(b"TABLE:users".to_vec())
    );
}

#[test]
fn dashes_only_comment_is_empty() {
    assert_eq!(classify(b"----"), CommentClass::Empty);
    assert_eq!(classify(b"--"), CommentClass::Empty);
    assert_eq!(classify(b"--   --"), CommentClass::Empty);
}

#[test]
fn other_keys_are_display_only_notes() {
    assert_eq!(
        classify(b"-- Some info: details --"),
        CommentClass::Note(b"Some info: details".to_vec())
    );
    assert_eq!(classify(b"-- OPTIONS"), CommentClass::Note(b"OPTIONS".to_vec()));
}

#[test]
fn table_key_without_value_has_empty_name() {
    assert_eq!(classify(b"-- TABLE"), CommentClass::Table(Vec::new()));
}
