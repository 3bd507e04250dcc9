use lib::statement::{char_is_whitespace, fixed_bytes, prepare_statement, PrepareError, StatementType};

fn padded<const N: usize>(s: &str) -> [u8; N] {
    let mut out = [0u8; N];
    out[..s.len()].copy_from_slice(s.as_bytes());
    out
}

#[test]
fn prepares_an_insert() {
    let st = prepare_statement("insert 42 alice alice@example.com").unwrap();
    assert_eq!(st.statement_type, StatementType::Insert);
    assert_eq!(st.row_to_insert.id, 42);
    assert_eq!(st.row_to_insert.username, padded::<32>("alice"));
    assert_eq!(st.row_to_insert.email, padded::<255>("alice@example.com"));
}

#[test]
fn prepares_a_select_with_an_empty_row() {
    let st = prepare_statement("select").unwrap();
    assert_eq!(st.statement_type, StatementType::Select);
    assert_eq!(st.row_to_insert.id, 0);
    assert_eq!(st.row_to_insert.username, [0u8; 32]);
    assert_eq!(st.row_to_insert.email, [0u8; 255]);
    let st = prepare_statement("select everything please").unwrap();
    assert_eq!(st.statement_type, StatementType::Select);
}

#[test]
fn rejects_unknown_keywords() {
    assert_eq!(prepare_statement("update 1 a b").err(), Some(PrepareError::UnrecognizedStatement));
    assert_eq!(prepare_statement("").err(), Some(PrepareError::UnrecognizedStatement));
    assert_eq!(prepare_statement(" insert 1 a b").err(), Some(PrepareError::UnrecognizedStatement));
    assert_eq!(prepare_statement("SELECT").err(), Some(PrepareError::UnrecognizedStatement));
}

#[test]
fn keyword_is_matched_as_a_prefix() {
    let st = prepare_statement("insertx 7 bob bob@example.com").unwrap();
    assert_eq!(st.statement_type, StatementType::Insert);
    assert_eq!(st.row_to_insert.id, 7);
    assert_eq!(prepare_statement("selection").unwrap().statement_type, StatementType::Select);
}

#[test]
fn negative_ids_are_refused() {
    assert_eq!(prepare_statement("insert -1 cstack foo@bar.com").err(), Some(PrepareError::NegativeId));
    assert_eq!(prepare_statement("insert -2147483648 a b").err(), Some(PrepareError::NegativeId));
    // The id is checked before the other fields are looked for.
    assert_eq!(prepare_statement("insert -5").err(), Some(PrepareError::NegativeId));
}

#[test]
fn ids_follow_i32_parsing() {
    assert_eq!(prepare_statement("insert +5 a b").unwrap().row_to_insert.id, 5);
    assert_eq!(prepare_statement("insert -0 a b").unwrap().row_to_insert.id, 0);
    assert_eq!(prepare_statement("insert 007 a b").unwrap().row_to_insert.id, 7);
    assert_eq!(prepare_statement("insert 2147483647 a b").unwrap().row_to_insert.id, 2147483647);
    assert_eq!(prepare_statement("insert 2147483648 a b").err(), Some(PrepareError::SyntaxError));
    assert_eq!(prepare_statement("insert -2147483649 a b").err(), Some(PrepareError::SyntaxError));
    assert_eq!(prepare_statement("insert 99999999999999999999 a b").err(), Some(PrepareError::SyntaxError));
    assert_eq!(prepare_statement("insert + a b").err(), Some(PrepareError::SyntaxError));
    assert_eq!(prepare_statement("insert - a b").err(), Some(PrepareError::SyntaxError));
    assert_eq!(prepare_statement("insert 1x a b").err(), Some(PrepareError::SyntaxError));
    assert_eq!(prepare_statement("insert ++1 a b").err(), Some(PrepareError::SyntaxError));
}

#[test]
fn missing_fields_are_a_syntax_error() {
    assert_eq!(prepare_statement("insert").err(), Some(PrepareError::SyntaxError));
    assert_eq!(prepare_statement("insert 1").err(), Some(PrepareError::SyntaxError));
    assert_eq!(prepare_statement("insert 1 a").err(), Some(PrepareError::SyntaxError));
    assert_eq!(prepare_statement("insert    ").err(), Some(PrepareError::SyntaxError));
}

#[test]
fn fields_are_split_on_any_whitespace() {
    let st = prepare_statement("insert\t3 \u{3000} carol\u{a0}\u{2003}carol@example.com  extra").unwrap();
    assert_eq!(st.row_to_insert.id, 3);
    assert_eq!(st.row_to_insert.username, padded::<32>("carol"));
    assert_eq!(st.row_to_insert.email, padded::<255>("carol@example.com"));
}

#[test]
fn strings_longer_than_their_fields_are_refused() {
    let long_username = "a".repeat(33);
    let ok_username = "a".repeat(32);
    let long_email = "e".repeat(256);
    let ok_email = "e".repeat(255);
    assert_eq!(
        prepare_statement(&format!("insert 1 {long_username} x")).err(),
        Some(PrepareError::StringTooLong)
    );
    assert_eq!(
        prepare_statement(&format!("insert 1 x {long_email}")).err(),
        Some(PrepareError::StringTooLong)
    );
    let st = prepare_statement(&format!("insert 1 {ok_username} {ok_email}")).unwrap();
    assert_eq!(st.row_to_insert.username.to_vec(), ok_username.into_bytes());
    assert_eq!(st.row_to_insert.email.to_vec(), ok_email.into_bytes());
}

#[test]
fn string_length_counts_utf8_bytes() {
    // Eleven three-byte characters take 33 bytes.
    let wide = "\u{20ac}".repeat(11);
    assert_eq!(prepare_statement(&format!("insert 1 {wide} x")).err(), Some(PrepareError::StringTooLong));
    let fits = "\u{20ac}".repeat(10);
    let st = prepare_statement(&format!("insert 1 {fits} x")).unwrap();
    assert_eq!(&st.row_to_insert.username[..30], fits.as_bytes());
    assert_eq!(&st.row_to_insert.username[30..], &[0u8, 0u8]);
}

#[test]
fn fixed_bytes_pads_with_zeros() {
    let b: [u8; 8] = fixed_bytes::<8>("abc").unwrap();
    assert_eq!(b, [b'a', b'b', b'c', 0, 0, 0, 0, 0]);
    let full: [u8; 3] = fixed_bytes::<3>("xyz").unwrap();
    assert_eq!(full, *b"xyz");
    assert!(fixed_bytes::<2>("xyz").is_err());
    let empty: [u8; 4] = fixed_bytes::<4>("").unwrap();
    assert_eq!(empty, [0u8; 4]);
}

#[test]
fn whitespace_is_the_unicode_white_space_set() {
    for c in [' ', '\t', '\n', '\r', '\u{b}', '\u{c}', '\u{85}', '\u{a0}', '\u{1680}', '\u{2000}', '\u{200a}', '\u{2028}', '\u{2029}', '\u{202f}', '\u{205f}', '\u{3000}'] {
        assert!(char_is_whitespace(c), "{:?}", c);
        assert_eq!(char_is_whitespace(c), c.is_whitespace());
    }
    for c in ['a', '0', '\u{200b}', '\u{feff}', '\u{1f}', '_'] {
        assert!(!char_is_whitespace(c), "{:?}", c);
        assert_eq!(char_is_whitespace(c), c.is_whitespace());
    }
}
