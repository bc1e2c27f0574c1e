use dump_import::utf8::utf8_check;

#[test]
fn ascii_and_multibyte_text_is_well_formed() {
    assert_eq!(utf8_check(&b"DEFINE TABLE user;\n".to_vec()), None);
    // Two-, three- and four-byte sequences.
    let text = "café — naïve \u{1F600}".as_bytes().to_vec();
    assert_eq!(utf8_check(&text), None);
    assert_eq!(utf8_check(&Vec::new()), None);
}

#[test]
fn lone_continuation_byte_is_rejected() {
    assert_eq!(utf8_check(&vec![b'a', 0x80, b'b']), Some(1));
}

#[test]
fn overlong_encoding_is_rejected() {
    // 0xC0 0x80 would be an overlong encoding of U+0000.
    assert_eq!(utf8_check(&vec![0xC0, 0x80]), Some(0));
}

#[test]
fn surrogate_range_is_rejected() {
    // 0xED 0xA0 0x80 would encode the surrogate U+D800.
    assert_eq!(utf8_check(&vec![b'x', 0xED, 0xA0, 0x80]), Some(1));
}

#[test]
fn truncated_sequence_at_end_is_rejected() {
    // The start of a three-byte sequence with only one continuation byte.
    assert_eq!(utf8_check(&vec![0xE2, 0x82]), Some(0));
}

#[test]
fn beyond_max_scalar_is_rejected() {
    // 0xF5 can begin no scalar value at or below U+10FFFF.
    assert_eq!(utf8_check(&vec![0xF5, 0x80, 0x80, 0x80]), Some(0));
}

#[test]
fn verdicts_agree_with_the_standard_library() {
    let cases: Vec<Vec<u8>> = vec![
        b"plain ascii;\n".to_vec(),
        "café \u{0801} \u{1F600}".as_bytes().to_vec(),
        vec![0xC3],
        vec![0xC3, 0xA9, 0x80],
        vec![0xE0, 0x9F, 0x80],
        vec![0xED, 0x9F, 0xBF],
        vec![0xF0, 0x8F, 0x80, 0x80],
        vec![0xF4, 0x90, 0x80, 0x80],
        vec![0xFF],
        vec![0x80],
    ];
    for case in cases {
        assert_eq!(
            utf8_check(&case).is_none(),
            std::str::from_utf8(&case).is_ok(),
            "disagreement on {:?}",
            case
        );
    }
}
