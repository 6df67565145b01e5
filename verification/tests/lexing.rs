use isograph_parser::text::{parse_i64, text_is};
use isograph_parser::{
    lex_block_string, lex_string, BlockStringToken, IsographLangTokenKind, ScanOutcome, Span,
    StringToken, WithSpan,
};

fn piece<T>(item: T, start: u32, end: u32) -> WithSpan<T> {
    WithSpan::new(item, Span::new(start, end))
}

#[test]
fn a_closed_string_ends_after_its_quote() {
    // hi" rest
    let pieces = vec![
        piece(StringToken::StringCharacters, 0, 2),
        piece(StringToken::Quote, 2, 3),
        piece(StringToken::StringCharacters, 3, 8),
    ];
    assert_eq!(lex_string(&pieces, 8), ScanOutcome { bump: 3, error: None });
}

#[test]
fn an_unsupported_character_fails_a_closed_string_with_its_kind() {
    let pieces = vec![
        piece(StringToken::StringCharacters, 0, 2),
        piece(StringToken::Error, 2, 3),
        piece(StringToken::Error, 3, 4),
        piece(StringToken::Quote, 4, 5),
    ];
    assert_eq!(
        lex_string(&pieces, 5),
        ScanOutcome { bump: 5, error: Some(IsographLangTokenKind::ErrorUnsupportedStringCharacter) },
    );
}

#[test]
fn a_line_terminator_leaves_a_string_unterminated_before_it() {
    let pieces = vec![
        piece(StringToken::StringCharacters, 0, 3),
        piece(StringToken::LineTerminator, 3, 4),
        piece(StringToken::Quote, 4, 5),
    ];
    assert_eq!(
        lex_string(&pieces, 5),
        ScanOutcome { bump: 3, error: Some(IsographLangTokenKind::ErrorUnterminatedString) },
    );
    let with_error = vec![piece(StringToken::Error, 0, 1), piece(StringToken::LineTerminator, 1, 2)];
    assert_eq!(
        lex_string(&with_error, 2),
        ScanOutcome { bump: 1, error: Some(IsographLangTokenKind::ErrorUnsupportedStringCharacter) },
    );
}

#[test]
fn a_string_running_to_the_end_of_the_input_is_unterminated() {
    let pieces = vec![
        piece(StringToken::EscapedCharacter, 0, 2),
        piece(StringToken::EscapedUnicode, 2, 8),
    ];
    assert_eq!(
        lex_string(&pieces, 8),
        ScanOutcome { bump: 8, error: Some(IsographLangTokenKind::ErrorUnterminatedString) },
    );
    assert_eq!(
        lex_string(&vec![], 0),
        ScanOutcome { bump: 0, error: Some(IsographLangTokenKind::ErrorUnterminatedString) },
    );
}

#[test]
fn a_block_string_ends_after_its_triple_quote_and_skips_escaped_ones() {
    let pieces = vec![
        piece(BlockStringToken::Other, 0, 1),
        piece(BlockStringToken::EscapedTripleQuote, 1, 5),
        piece(BlockStringToken::Error, 5, 6),
        piece(BlockStringToken::TripleQuote, 6, 9),
        piece(BlockStringToken::Other, 9, 10),
    ];
    assert_eq!(lex_block_string(&pieces, 10), ScanOutcome { bump: 9, error: None });
}

#[test]
fn a_block_string_without_its_triple_quote_is_unterminated() {
    let pieces = vec![piece(BlockStringToken::Other, 0, 1), piece(BlockStringToken::Other, 1, 2)];
    assert_eq!(
        lex_block_string(&pieces, 2),
        ScanOutcome { bump: 2, error: Some(IsographLangTokenKind::ErrorUnterminatedBlockString) },
    );
}

#[test]
fn decimal_integers_parse_with_an_optional_sign() {
    assert_eq!(parse_i64("0"), Some(0));
    assert_eq!(parse_i64("-0"), Some(0));
    assert_eq!(parse_i64("+42"), Some(42));
    assert_eq!(parse_i64("-7"), Some(-7));
    assert_eq!(parse_i64("9223372036854775807"), Some(i64::MAX));
    assert_eq!(parse_i64("-9223372036854775808"), Some(i64::MIN));
}

#[test]
fn integers_out_of_range_or_malformed_do_not_parse() {
    assert_eq!(parse_i64("9223372036854775808"), None);
    assert_eq!(parse_i64("-9223372036854775809"), None);
    assert_eq!(parse_i64("99999999999999999999999999"), None);
    assert_eq!(parse_i64(""), None);
    assert_eq!(parse_i64("-"), None);
    assert_eq!(parse_i64("+"), None);
    assert_eq!(parse_i64("1a"), None);
    assert_eq!(parse_i64(" 1"), None);
    assert_eq!(parse_i64("1.5"), None);
}

#[test]
fn texts_compare_by_their_characters() {
    assert!(text_is("true", "true"));
    assert!(!text_is("true", "True"));
    assert!(!text_is("tru", "true"));
    assert!(text_is("", ""));
    assert!(text_is("é", "é"));
}
