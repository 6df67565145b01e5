use isograph_parser::chunk_stream::{ItemCursor, ParseOutput};
use isograph_parser::parse_iso_literal::consume_description;
use isograph_parser::{
    chunk, match_brackets, ChunkContentItem, ChunkedLevel, parse_iso_literal, BracketError, BracketKind, Description,
    EntityNameWrapper, EntrypointDeclaration, Expectation, Found, IntegerValue,
    IsoLiteralError, IsoLiteralItem, IsoLiteralParse, IsographDirectiveNameWrapper,
    IsographLangTokenKind,
    IsographSemanticToken, NamedTypeAnnotation, NonBracketTokenKind,
    NonConstantValue, NullTypeAnnotation, ObjectEntry, ParseError, SelectableDeclaration,
    SelectableNameWrapper, Selection, SelectionNameWrapper, SelectionSet, Slot, Span,
    TypeAnnotation, UnionTypeAnnotation, UnionVariant, UnparsedChunkItems, VariableDeclaration,
    VariableDeclarationList, VariableNameWrapper, WithOptionalSpan, WithSpan,
};
use Expectation::EndOfDeclaration;
use NonBracketTokenKind::{At, Comma, Dollar, ErrorNumberLiteralTrailingInvalid, Identifier, Period};

type AstError = ParseError;

const DECLARATION_KEYWORD: Expectation = Expectation::DeclarationKeyword;

/// A small tokenizer for the fixtures: identifiers, numbers, strings, block strings,
/// punctuation, brackets and line breaks, spaces and tabs skipped.
fn tokenize(text: &str) -> Vec<WithSpan<IsographLangTokenKind>> {
    let bytes = text.as_bytes();
    let mut tokens = Vec::new();
    let mut i = 0;
    while i < bytes.len() {
        let start = i;
        let c = bytes[i];
        let kind = match c {
            b' ' | b'\t' => {
                i += 1;
                continue;
            }
            b'\r' => {
                i += if i + 1 < bytes.len() && bytes[i + 1] == b'\n' { 2 } else { 1 };
                IsographLangTokenKind::LineBreak
            }
            b'\n' => {
                i += 1;
                IsographLangTokenKind::LineBreak
            }
            b'@' => {
                i += 1;
                IsographLangTokenKind::At
            }
            b':' => {
                i += 1;
                IsographLangTokenKind::Colon
            }
            b'$' => {
                i += 1;
                IsographLangTokenKind::Dollar
            }
            b'=' => {
                i += 1;
                IsographLangTokenKind::Equals
            }
            b'!' => {
                i += 1;
                IsographLangTokenKind::Exclamation
            }
            b',' => {
                i += 1;
                IsographLangTokenKind::Comma
            }
            b'(' => {
                i += 1;
                IsographLangTokenKind::OpenParenthesis
            }
            b')' => {
                i += 1;
                IsographLangTokenKind::CloseParenthesis
            }
            b'{' => {
                i += 1;
                IsographLangTokenKind::OpenBrace
            }
            b'}' => {
                i += 1;
                IsographLangTokenKind::CloseBrace
            }
            b'[' => {
                i += 1;
                IsographLangTokenKind::OpenBracket
            }
            b']' => {
                i += 1;
                IsographLangTokenKind::CloseBracket
            }
            b'"' => {
                if text[i..].starts_with("\"\"\"") {
                    i += 3;
                    loop {
                        if i >= bytes.len() {
                            break IsographLangTokenKind::ErrorUnterminatedBlockString;
                        }
                        if text[i..].starts_with("\\\"\"\"") {
                            i += 4;
                        } else if text[i..].starts_with("\"\"\"") {
                            i += 3;
                            break IsographLangTokenKind::BlockStringLiteral;
                        } else {
                            i += 1;
                        }
                    }
                } else {
                    i += 1;
                    loop {
                        if i >= bytes.len() || bytes[i] == b'\n' || bytes[i] == b'\r' {
                            break IsographLangTokenKind::ErrorUnterminatedString;
                        }
                        if bytes[i] == b'\\' {
                            i += 2;
                        } else if bytes[i] == b'"' {
                            i += 1;
                            break IsographLangTokenKind::StringLiteral;
                        } else {
                            i += 1;
                        }
                    }
                }
            }
            b'.' => {
                if i + 1 < bytes.len() && bytes[i + 1].is_ascii_digit() {
                    i += 1;
                    while i < bytes.len() && bytes[i].is_ascii_digit() {
                        i += 1;
                    }
                    IsographLangTokenKind::ErrorFloatLiteralMissingZero
                } else {
                    i += 1;
                    IsographLangTokenKind::Period
                }
            }
            b'-' | b'0'..=b'9' => {
                if c == b'-' {
                    i += 1;
                }
                if i >= bytes.len() || !bytes[i].is_ascii_digit() {
                    IsographLangTokenKind::Error
                } else {
                    let leading_zero = bytes[i] == b'0' && i + 1 < bytes.len() && bytes[i + 1].is_ascii_digit();
                    while i < bytes.len() && bytes[i].is_ascii_digit() {
                        i += 1;
                    }
                    let mut kind = if leading_zero {
                        IsographLangTokenKind::ErrorNumberLiteralLeadingZero
                    } else {
                        IsographLangTokenKind::IntegerLiteral
                    };
                    if i + 1 < bytes.len() && bytes[i] == b'.' && bytes[i + 1].is_ascii_digit() {
                        i += 1;
                        while i < bytes.len() && bytes[i].is_ascii_digit() {
                            i += 1;
                        }
                        if !leading_zero {
                            kind = IsographLangTokenKind::FloatLiteral;
                        }
                    }
                    if i < bytes.len() && (bytes[i] == b'e' || bytes[i] == b'E') {
                        let mut j = i + 1;
                        if j < bytes.len() && (bytes[j] == b'+' || bytes[j] == b'-') {
                            j += 1;
                        }
                        if j < bytes.len() && bytes[j].is_ascii_digit() {
                            while j < bytes.len() && bytes[j].is_ascii_digit() {
                                j += 1;
                            }
                            i = j;
                            if !leading_zero {
                                kind = IsographLangTokenKind::FloatLiteral;
                            }
                        }
                    }
                    if !leading_zero
                        && i < bytes.len()
                        && (bytes[i] == b'.' || bytes[i].is_ascii_alphabetic() || bytes[i] == b'_')
                    {
                        i += 1;
                        kind = IsographLangTokenKind::ErrorNumberLiteralTrailingInvalid;
                    }
                    kind
                }
            }
            b'a'..=b'z' | b'A'..=b'Z' | b'_' => {
                while i < bytes.len() && (bytes[i].is_ascii_alphanumeric() || bytes[i] == b'_') {
                    i += 1;
                }
                IsographLangTokenKind::Identifier
            }
            _ => {
                i += text[i..].chars().next().map(|c| c.len_utf8()).unwrap_or(1);
                IsographLangTokenKind::Error
            }
        };
        tokens.push(WithSpan::new(kind, Span::new(start as u32, i as u32)));
    }
    tokens
}

/// The span of `pattern`, which must occur exactly once in `text`.
fn span_of(text: &str, pattern: &str) -> Span {
    let mut occurrences = text.match_indices(pattern);
    let (offset, _) = occurrences
        .next()
        .expect("the pattern the test anchors on occurs in the literal");
    assert!(
        occurrences.next().is_none(),
        "the pattern the test anchors on occurs exactly once in the literal"
    );
    Span::new(offset as u32, (offset + pattern.len()) as u32)
}

fn span_from_usize(start: usize, end: usize) -> Span {
    Span::new(start as u32, end as u32)
}

/// Checks the recorded roles against `expected`, each expected lexeme the next recorded
/// occurrence of it in the text after the previous one.
fn assert_semantic_tokens(
    text: &str,
    actual: &[WithSpan<IsographSemanticToken>],
    expected: &[(IsographSemanticToken, &str)],
) {
    let mut search_from = 0usize;
    let mut expected_tokens = Vec::with_capacity(expected.len());
    for &(role, pattern) in expected {
        let span = loop {
            let offset = text[search_from..]
                .find(pattern)
                .expect("the expected lexeme occurs as a recorded token after the previous token");
            let start = search_from + offset;
            let end = start + pattern.len();
            let span = span_from_usize(start, end);
            search_from = end;
            if actual.iter().any(|token| token.location == span) {
                break span;
            }
        };
        expected_tokens.push(WithSpan::new(role, span));
    }
    assert_eq!(actual, expected_tokens.as_slice(), "for literal {text:?}");
}

/// Postfix helpers the fixtures read well with.
trait Postfix: Sized {
    fn wrap_vec(self) -> Vec<Self> {
        vec![self]
    }

    fn wrap_some(self) -> Option<Self> {
        Some(self)
    }

    fn with_span(self, location: Span) -> WithSpan<Self> {
        WithSpan::new(self, location)
    }

    fn reference(&self) -> &Self {
        self
    }
}

impl<T> Postfix for T {}

fn optional_span<T>(item: T, location: Option<Span>) -> WithOptionalSpan<T> {
    WithOptionalSpan { item, location }
}

fn parsed(
    text: &str,
    expected_tokens: &[(IsographSemanticToken, &str)],
) -> (WithSpan<IsoLiteralParse>, Vec<WithSpan<AstError>>) {
    let parsed = parse_iso_literal(text, tokenize(text));
    assert_semantic_tokens(text, &parsed.tokens, expected_tokens);
    let errors = parsed
        .errors
        .into_iter()
        .map(|error| match error.item {
            IsoLiteralError::Ast(ast) => WithSpan::new(ast, error.location),
            IsoLiteralError::Bracket(_) | IsoLiteralError::Comma(_) => {
                panic!("for literal {text:?}")
            }
        })
        .collect();
    (parsed.item.expect("the fixture is not an empty literal"), errors)
}

fn parsed_with_errors(
    text: &str,
    expected_tokens: &[(IsographSemanticToken, &str)],
) -> isograph_parser::ParsedIsoLiteral {
    let parsed = parse_iso_literal(text, tokenize(text));
    assert_semantic_tokens(text, &parsed.tokens, expected_tokens);
    parsed
}

fn expected(expectation: Expectation, found: Found) -> AstError {
    AstError::expected(expectation, found)
}

fn token(kind: NonBracketTokenKind) -> Expectation {
    Expectation::Token(kind)
}

fn first_slot(parse: &WithSpan<IsoLiteralParse>) -> &Slot<IsoLiteralItem, UnparsedChunkItems> {
    &parse.item.item.item
}

fn parsed_item(parse: &WithSpan<IsoLiteralParse>) -> Option<&IsoLiteralItem> {
    first_slot(parse).item.as_ref().map(|wrapped| &wrapped.item)
}

fn as_entrypoint(parse: &WithSpan<IsoLiteralParse>) -> &EntrypointDeclaration {
    let item = parsed_item(parse).expect("the fixture's literal parsed an item");
    match item {
        IsoLiteralItem::Entrypoint(declaration) => declaration,
        item => panic!("expected an entrypoint declaration, got {item:?}"),
    }
}

fn as_selectable(parse: &WithSpan<IsoLiteralParse>) -> &SelectableDeclaration {
    match parsed_item(parse).expect("the fixture's literal parsed an item") {
        IsoLiteralItem::Selectable(declaration) => declaration,
        item => panic!("expected a selectable declaration, got {item:?}"),
    }
}

fn variables_of(parse: &WithSpan<IsoLiteralParse>) -> &WithSpan<VariableDeclarationList> {
    as_selectable(parse)
        .variable_definitions
        .as_ref()
        .expect("the fixture's declaration carries variable definitions")
}

fn as_declared(slot: &Slot<VariableDeclaration, UnparsedChunkItems>) -> &VariableDeclaration {
    slot.item
        .as_ref()
        .map(|wrapped| &wrapped.item)
        .expect("expected a declared variable")
}

fn as_entry(slot: &Slot<ObjectEntry, UnparsedChunkItems>) -> &ObjectEntry {
    slot.item
        .as_ref()
        .map(|wrapped| &wrapped.item)
        .expect("expected an object entry")
}

fn selections(
    selection_set: &WithSpan<SelectionSet>,
) -> &[WithSpan<Slot<Selection, UnparsedChunkItems>>] {
    &selection_set.item.0
}

fn selection_set_of(declaration: &SelectableDeclaration) -> &WithSpan<SelectionSet> {
    declaration
        .selection_set
        .as_ref()
        .expect("the fixture writes a selection set")
}

fn as_selection(slot: &Slot<Selection, UnparsedChunkItems>) -> &Selection {
    slot.item
        .as_ref()
        .map(|wrapped| &wrapped.item)
        .expect("expected a selection")
}

fn chunked(text: &str) -> WithSpan<ChunkedLevel> {
    let (brackets, bracket_errors) = match_brackets(tokenize(text), text.len() as u32);
    assert!(bracket_errors.is_empty(), "for literal {text:?}");
    let (tree, comma_errors) = chunk(&brackets);
    assert_eq!(comma_errors, vec![], "for literal {text:?}");
    tree
}

fn named_union_member(name: &str, span: Span) -> WithOptionalSpan<UnionVariant> {
    optional_span(
        UnionVariant::Named(NamedTypeAnnotation {
            name: EntityNameWrapper(name.to_string()).with_span(span),
        }),
        span.wrap_some(),
    )
}

fn assert_no_declaration(
    text: &str,
    reason: AstError,
    reason_span: Span,
    expected_tokens: &[(IsographSemanticToken, &str)],
) {
    let (parse, errors) = parsed(text, expected_tokens);
    assert!(parsed_item(&parse).is_none(), "for literal {text:?}");
    assert!(
        errors
            .iter()
            .any(|error| error.item == reason && error.location == reason_span),
        "for literal {text:?}, errors were {errors:?}",
    );
}

#[test]
fn an_entrypoint_declaration_parses_with_tight_spans() {
    let text = "entrypoint Query.foo";
    let (parse, errors) = parsed(
        text,
        &[
            (IsographSemanticToken::Keyword, "entrypoint"),
            (IsographSemanticToken::Type, "Query"),
            (IsographSemanticToken::Period, "."),
            (IsographSemanticToken::FieldName, "foo"),
        ],
    );
    let declaration = as_entrypoint(parse.reference());
    assert_eq!(
        declaration.parent_type.item,
        EntityNameWrapper("Query".to_string())
    );
    assert_eq!(
        declaration.name.item,
        SelectableNameWrapper("foo".to_string())
    );
    assert_eq!(declaration.parent_type.location, span_of(text, "Query"));
    assert_eq!(declaration.name.location, span_of(text, "foo"));
    assert_eq!(errors, vec![]);
    assert_eq!(parse.location, span_from_usize(0, text.len()));
}

#[test]
fn surrounding_line_breaks_and_interior_spaces_are_insignificant() {
    for text in [
        "\n  entrypoint Query.foo\n",
        "\n\nentrypoint Query.foo",
        "entrypoint Query . foo",
    ] {
        let (parse, errors) = parsed(
            text,
            &[
                (IsographSemanticToken::Keyword, "entrypoint"),
                (IsographSemanticToken::Type, "Query"),
                (IsographSemanticToken::Period, "."),
                (IsographSemanticToken::FieldName, "foo"),
            ],
        );
        let declaration = as_entrypoint(parse.reference());
        assert_eq!(
            declaration.parent_type.location,
            span_of(text, "Query"),
            "for literal {text:?}"
        );
        assert_eq!(
            declaration.name.location,
            span_of(text, "foo"),
            "for literal {text:?}"
        );
        assert_eq!(errors, vec![], "for literal {text:?}");
    }
}

#[test]
fn empty_literal_is_none_with_empty_literal_error() {
    let parsed = parsed_with_errors("", &[]);
    assert!(parsed.item.is_none());
    assert!(
        parsed
            .errors
            .iter()
            .any(|error| { error.item == IsoLiteralError::Ast(AstError::EmptyLiteral) })
    );
}

#[test]
fn empty_and_whitespace_only_literals_are_empty_literal_errors() {
    for text in ["", "   ", "\n\n"] {
        let parsed = parsed_with_errors(text, &[]);
        assert!(parsed.item.is_none(), "for literal {text:?}");
        assert_eq!(
            parsed.errors,
            IsoLiteralError::Ast(AstError::EmptyLiteral)
                .with_span(span_from_usize(0, text.len()))
                .wrap_vec(),
            "for literal {text:?}",
        );
    }
}

#[test]
fn comma_mistakes_are_chunkings_errors_and_the_declaration_still_parses() {
    for (text, comma_error_count) in
        [(",entrypoint Query.foo", 1), (",,entrypoint Query.foo", 2)]
    {
        let parsed = parsed_with_errors(
            text,
            &[
                (IsographSemanticToken::Keyword, "entrypoint"),
                (IsographSemanticToken::Type, "Query"),
                (IsographSemanticToken::Period, "."),
                (IsographSemanticToken::FieldName, "foo"),
            ],
        );
        assert!(
            parsed
                .errors
                .iter()
                .all(|error| matches!(error.item, IsoLiteralError::Comma(_))),
            "for literal {text:?}",
        );
        assert_eq!(
            parsed.errors.len(),
            comma_error_count,
            "for literal {text:?}"
        );
        let parse = parsed.item.expect("the fixture is not an empty literal");
        let declaration = as_entrypoint(parse.reference());
        assert_eq!(
            declaration.parent_type.location,
            span_of(text, "Query"),
            "for literal {text:?}"
        );
    }
}

#[test]
fn a_lone_comma_is_chunkings_error_and_an_empty_literal() {
    let text = ",";
    let parsed = parsed_with_errors(text, &[]);
    assert!(parsed.item.is_none());
    assert_eq!(
        parsed
            .errors
            .iter()
            .filter(|error| matches!(error.item, IsoLiteralError::Comma(_)))
            .count(),
        1,
    );
    assert!(parsed.errors.iter().any(|error| {
        error.item == IsoLiteralError::Ast(AstError::EmptyLiteral)
            && error.location == span_from_usize(0, text.len())
    }));
    assert!(
        parsed
            .errors
            .iter()
            .all(|error| matches!(error.item, IsoLiteralError::Comma(_) | IsoLiteralError::Ast(_)))
    );
}

#[test]
fn the_cut_removes_an_unmatched_bracket_and_the_declaration_parses() {
    for text in ["entrypoint Query.foo)", "entrypoint Query.foo ("] {
        let parsed = parsed_with_errors(
            text,
            &[
                (IsographSemanticToken::Keyword, "entrypoint"),
                (IsographSemanticToken::Type, "Query"),
                (IsographSemanticToken::Period, "."),
                (IsographSemanticToken::FieldName, "foo"),
            ],
        );
        assert!(
            parsed
                .errors
                .iter()
                .all(|error| matches!(error.item, IsoLiteralError::Bracket(_))),
            "for literal {text:?}",
        );
        assert_eq!(parsed.errors.len(), 1, "for literal {text:?}");
        let parse = parsed.item.expect("the fixture is not an empty literal");
        let declaration = as_entrypoint(parse.reference());
        assert_eq!(
            declaration.name.location,
            span_of(text, "foo"),
            "for literal {text:?}"
        );
    }
}

#[test]
fn a_stray_close_is_a_parse_error_and_the_declaration_parses() {
    let text = "entrypoint Query.foo)";
    let parsed = parsed_with_errors(
        text,
        &[
            (IsographSemanticToken::Keyword, "entrypoint"),
            (IsographSemanticToken::Type, "Query"),
            (IsographSemanticToken::Period, "."),
            (IsographSemanticToken::FieldName, "foo"),
        ],
    );
    assert!(parsed.item.is_some());
    assert!(parsed.errors.iter().any(|error| {
        matches!(
            error.item.reference(),
            IsoLiteralError::Bracket(BracketError::UnmatchedClose(close))
                if close.item.0 == BracketKind::Parenthesis
                    && close.location == span_of(text, ")")
        ) && error.location == span_of(text, ")")
    }));
}

#[test]
fn a_final_comma_after_the_declaration_is_an_error() {
    for text in ["entrypoint Query.foo,", "\nentrypoint Query.foo,\n"] {
        let (parse, errors) = parsed(
            text,
            &[
                (IsographSemanticToken::Keyword, "entrypoint"),
                (IsographSemanticToken::Type, "Query"),
                (IsographSemanticToken::Period, "."),
                (IsographSemanticToken::FieldName, "foo"),
                (IsographSemanticToken::Content, ","),
            ],
        );
        as_entrypoint(parse.reference());
        assert_eq!(
            errors,
            expected(EndOfDeclaration, Found::Token(Comma))
                .with_span(span_of(text, ","))
                .wrap_vec(),
            "for literal {text:?}",
        );
    }
}

#[test]
fn a_comma_before_a_second_declaration_is_the_boundary_comma() {
    let text = "entrypoint Query.foo, field User.name";
    let (parse, errors) = parsed(
        text,
        &[
            (IsographSemanticToken::Keyword, "entrypoint"),
            (IsographSemanticToken::Type, "Query"),
            (IsographSemanticToken::Period, "."),
            (IsographSemanticToken::FieldName, "foo"),
            (IsographSemanticToken::Content, ","),
            (IsographSemanticToken::Content, "field"),
            (IsographSemanticToken::Content, "User"),
            (IsographSemanticToken::Content, "."),
            (IsographSemanticToken::Content, "name"),
        ],
    );
    assert_eq!(
        as_entrypoint(parse.reference()).name.location,
        span_of(text, "foo")
    );
    assert_eq!(
        errors,
        vec![
            expected(EndOfDeclaration, Found::Token(Comma)).with_span(span_of(text, ",")),
            AstError::MultipleDeclarations.with_span(span_of(text, "field User.name")),
        ],
    );
    assert!(parse.item.extra_chunks.as_ref().is_some());
}

#[test]
fn a_second_contentful_chunk_is_multiple_declarations() {
    let text = "entrypoint Query.foo\nfield User.name";
    let (parse, errors) = parsed(
        text,
        &[
            (IsographSemanticToken::Keyword, "entrypoint"),
            (IsographSemanticToken::Type, "Query"),
            (IsographSemanticToken::Period, "."),
            (IsographSemanticToken::FieldName, "foo"),
            (IsographSemanticToken::Content, "field"),
            (IsographSemanticToken::Content, "User"),
            (IsographSemanticToken::Content, "."),
            (IsographSemanticToken::Content, "name"),
        ],
    );
    assert_eq!(
        as_entrypoint(parse.reference()).name.location,
        span_of(text, "foo")
    );
    assert_eq!(
        errors,
        AstError::MultipleDeclarations
            .with_span(span_of(text, "field User.name"))
            .wrap_vec(),
    );
    assert!(parse.item.extra_chunks.as_ref().is_some());
}

#[test]
fn a_failed_first_chunk_is_reported_even_when_a_second_exists() {
    let text = "entrypoint\nQuery.foo";
    let keyword_end = span_of(text, "entrypoint").end;
    let (parse, errors) = parsed(
        text,
        &[
            (IsographSemanticToken::Keyword, "entrypoint"),
            (IsographSemanticToken::Content, "Query"),
            (IsographSemanticToken::Content, "."),
            (IsographSemanticToken::Content, "foo"),
        ],
    );
    assert!(parsed_item(parse.reference()).is_none());
    assert!(errors.iter().any(|error| {
        error.item == expected(token(Identifier), Found::EndOfChunk)
            && error.location == Span::new(keyword_end, keyword_end)
    }));
    assert!(
        errors
            .iter()
            .any(|error| error.item == AstError::MultipleDeclarations)
    );
    assert!(parse.item.extra_chunks.as_ref().is_some());
}

#[test]
fn an_unknown_keyword_is_an_error_at_the_keyword() {
    let text = "fieldd Query.foo { bar }";
    assert_no_declaration(
        text,
        expected(DECLARATION_KEYWORD, Found::Token(Identifier)),
        span_of(text, "fieldd"),
        &[
            (IsographSemanticToken::Keyword, "fieldd"),
            (IsographSemanticToken::Content, "Query"),
            (IsographSemanticToken::Content, "."),
            (IsographSemanticToken::Content, "foo"),
            (IsographSemanticToken::Bracket, "{"),
            (IsographSemanticToken::Content, "bar"),
            (IsographSemanticToken::Bracket, "}"),
        ],
    );
}

#[test]
fn a_literal_opening_with_a_group_expects_a_keyword() {
    let text = "{ bar }";
    assert_no_declaration(
        text,
        expected(DECLARATION_KEYWORD, Found::Group(BracketKind::Brace)),
        span_of(text, "{ bar }"),
        &[
            (IsographSemanticToken::Bracket, "{"),
            (IsographSemanticToken::Content, "bar"),
            (IsographSemanticToken::Bracket, "}"),
        ],
    );
}

#[test]
fn a_pointer_keyword_is_not_a_declaration() {
    let text = "pointer Pet.BestFriend to Owner { id }";
    assert_no_declaration(
        text,
        expected(DECLARATION_KEYWORD, Found::Token(Identifier)),
        span_of(text, "pointer"),
        &[
            (IsographSemanticToken::Keyword, "pointer"),
            (IsographSemanticToken::Content, "Pet"),
            (IsographSemanticToken::Content, "."),
            (IsographSemanticToken::Content, "BestFriend"),
            (IsographSemanticToken::Content, "to"),
            (IsographSemanticToken::Content, "Owner"),
            (IsographSemanticToken::Bracket, "{"),
            (IsographSemanticToken::Content, "id"),
            (IsographSemanticToken::Bracket, "}"),
        ],
    );
}

#[test]
fn each_missing_entrypoint_part_reports_at_its_position() {
    let bare = "entrypoint";
    let keyword_end = span_of(bare, "entrypoint").end;
    assert_no_declaration(
        bare,
        expected(token(Identifier), Found::EndOfChunk),
        Span::new(keyword_end, keyword_end),
        &[(IsographSemanticToken::Keyword, "entrypoint")],
    );

    let numeric = "entrypoint 42.foo";
    assert_no_declaration(
        numeric,
        expected(
            token(Identifier),
            Found::Token(ErrorNumberLiteralTrailingInvalid),
        ),
        span_of(numeric, "42."),
        &[
            (IsographSemanticToken::Keyword, "entrypoint"),
            (IsographSemanticToken::Content, "42."),
            (IsographSemanticToken::Content, "foo"),
        ],
    );

    let dotless = "entrypoint Query foo";
    assert_no_declaration(
        dotless,
        expected(token(Period), Found::Token(Identifier)),
        span_of(dotless, "foo"),
        &[
            (IsographSemanticToken::Keyword, "entrypoint"),
            (IsographSemanticToken::Type, "Query"),
            (IsographSemanticToken::Content, "foo"),
        ],
    );

    let nameless = "entrypoint Query.";
    let dot_end = span_of(nameless, ".").end;
    assert_no_declaration(
        nameless,
        expected(token(Identifier), Found::EndOfChunk),
        Span::new(dot_end, dot_end),
        &[
            (IsographSemanticToken::Keyword, "entrypoint"),
            (IsographSemanticToken::Type, "Query"),
            (IsographSemanticToken::Period, "."),
        ],
    );
}

#[test]
fn a_trailing_comma_after_an_entrypoint_is_extra() {
    let text = "entrypoint Query.foo,";
    let (parse, errors) = parsed(
        text,
        &[
            (IsographSemanticToken::Keyword, "entrypoint"),
            (IsographSemanticToken::Type, "Query"),
            (IsographSemanticToken::Period, "."),
            (IsographSemanticToken::FieldName, "foo"),
            (IsographSemanticToken::Content, ","),
        ],
    );
    as_entrypoint(parse.reference());
    let extra = first_slot(parse.reference())
        .extra
        .as_ref()
        .expect("the comma is extra");
    assert_eq!(extra.location, span_of(text, ","));
    assert_eq!(
        errors,
        expected(EndOfDeclaration, Found::Token(Comma))
            .with_span(span_of(text, ","))
            .wrap_vec(),
    );
}

#[test]
fn leftover_dollars_after_entrypoint_are_extra() {
    let text = "entrypoint $ $";
    let (parse, errors) = parsed(
        text,
        &[
            (IsographSemanticToken::Keyword, "entrypoint"),
            (IsographSemanticToken::Content, "$"),
            (IsographSemanticToken::Content, "$"),
        ],
    );
    assert!(parsed_item(parse.reference()).is_none());
    let extra = first_slot(parse.reference())
        .extra
        .as_ref()
        .expect("$ $ is extra");
    assert_eq!(extra.location, span_of(text, "$ $"));
    assert!(
        errors
            .iter()
            .any(|error| { error.item == expected(token(Identifier), Found::Token(Dollar)) })
    );
}

#[test]
fn leftover_then_a_trailing_comma_are_both_extra() {
    let text = "entrypoint Query.foo bar,";
    let (parse, errors) = parsed(
        text,
        &[
            (IsographSemanticToken::Keyword, "entrypoint"),
            (IsographSemanticToken::Type, "Query"),
            (IsographSemanticToken::Period, "."),
            (IsographSemanticToken::FieldName, "foo"),
            (IsographSemanticToken::Content, "bar"),
            (IsographSemanticToken::Content, ","),
        ],
    );
    as_entrypoint(parse.reference());
    let extra = first_slot(parse.reference())
        .extra
        .as_ref()
        .expect("bar and the comma are extra");
    assert_eq!(extra.location, span_of(text, "bar,"));
    assert!(errors.iter().any(|error| {
        error.item == expected(EndOfDeclaration, Found::Token(Identifier))
            && error.location == span_of(text, "bar")
    }));
    assert!(errors.iter().any(|error| {
        error.item == expected(EndOfDeclaration, Found::Token(Comma))
            && error.location == span_of(text, ",")
    }));
}

#[test]
fn a_failed_form_that_consumed_every_item_still_has_extra() {
    let text = "entrypoint Query.";
    let (parse, _) = parsed(
        text,
        &[
            (IsographSemanticToken::Keyword, "entrypoint"),
            (IsographSemanticToken::Type, "Query"),
            (IsographSemanticToken::Period, "."),
        ],
    );
    assert!(parsed_item(parse.reference()).is_none());
    let extra = first_slot(parse.reference())
        .extra
        .as_ref()
        .expect("the whole contents are extra");
    assert_eq!(extra.location, span_of(text, "entrypoint Query."));
}

#[test]
fn a_failed_form_puts_unread_remainder_in_extra() {
    let text = "entrypoint Foo.$ asdf";
    let (parse, errors) = parsed(
        text,
        &[
            (IsographSemanticToken::Keyword, "entrypoint"),
            (IsographSemanticToken::Type, "Foo"),
            (IsographSemanticToken::Period, "."),
            (IsographSemanticToken::Content, "$"),
            (IsographSemanticToken::Content, "asdf"),
        ],
    );
    assert!(parsed_item(parse.reference()).is_none());
    let extra = first_slot(parse.reference())
        .extra
        .as_ref()
        .expect("$ asdf is extra");
    assert_eq!(extra.location, span_of(text, "$ asdf"));
    assert!(errors.iter().any(|error| {
        error.item == expected(token(Identifier), Found::Token(Dollar))
            && error.location == span_of(text, "$")
    }));
}

#[test]
fn tokens_after_a_complete_entrypoint_are_leftover() {
    let text = "entrypoint Query.foo bar";
    let (parse, errors) = parsed(
        text,
        &[
            (IsographSemanticToken::Keyword, "entrypoint"),
            (IsographSemanticToken::Type, "Query"),
            (IsographSemanticToken::Period, "."),
            (IsographSemanticToken::FieldName, "foo"),
            (IsographSemanticToken::Content, "bar"),
        ],
    );
    as_entrypoint(parse.reference());
    assert!(parsed_item(parse.reference()).is_some());
    assert!(first_slot(parse.reference()).extra.as_ref().is_some());
    assert_eq!(
        errors,
        expected(EndOfDeclaration, Found::Token(Identifier))
            .with_span(span_of(text, "bar"))
            .wrap_vec(),
    );
}

#[test]
fn a_selection_set_on_an_entrypoint_is_leftover() {
    let text = "entrypoint Query.foo { bar }";
    let (parse, errors) = parsed(
        text,
        &[
            (IsographSemanticToken::Keyword, "entrypoint"),
            (IsographSemanticToken::Type, "Query"),
            (IsographSemanticToken::Period, "."),
            (IsographSemanticToken::FieldName, "foo"),
            (IsographSemanticToken::Bracket, "{"),
            (IsographSemanticToken::Content, "bar"),
            (IsographSemanticToken::Bracket, "}"),
        ],
    );
    as_entrypoint(parse.reference());
    assert_eq!(
        errors,
        expected(EndOfDeclaration, Found::Group(BracketKind::Brace))
            .with_span(span_of(text, "{ bar }"))
            .wrap_vec(),
    );
}

#[test]
fn an_entrypoint_directive_parses() {
    let text = "entrypoint Query.foo @lazyLoad";
    let (parse, errors) = parsed(
        text,
        &[
            (IsographSemanticToken::Keyword, "entrypoint"),
            (IsographSemanticToken::Type, "Query"),
            (IsographSemanticToken::Period, "."),
            (IsographSemanticToken::FieldName, "foo"),
            (IsographSemanticToken::DirectiveName, "@"),
            (IsographSemanticToken::DirectiveName, "lazyLoad"),
        ],
    );
    assert_eq!(errors, vec![]);
    let directives = as_entrypoint(parse.reference())
        .directive_set
        .as_ref()
        .expect("the fixture carries a directive");
    assert_eq!(directives.location, span_of(text, "@lazyLoad"));
    assert_eq!(directives.item.0.len(), 1);
    assert_eq!(
        directives.item.0[0].item.name.item,
        IsographDirectiveNameWrapper("lazyLoad".to_string())
    );
    assert!(directives.item.0[0].item.arguments.is_none());
}

#[test]
fn a_field_directive_sits_between_variables_and_the_description() {
    let text = "field Query.Foo($id: ID) @component \"the route\" { bar }";
    let (parse, errors) = parsed(
        text,
        &[
            (IsographSemanticToken::Keyword, "field"),
            (IsographSemanticToken::Type, "Query"),
            (IsographSemanticToken::Period, "."),
            (IsographSemanticToken::FieldName, "Foo"),
            (IsographSemanticToken::Parenthesis, "("),
            (IsographSemanticToken::Variable, "$"),
            (IsographSemanticToken::Variable, "id"),
            (IsographSemanticToken::Colon, ":"),
            (IsographSemanticToken::GraphQLTypeName, "ID"),
            (IsographSemanticToken::Parenthesis, ")"),
            (IsographSemanticToken::DirectiveName, "@"),
            (IsographSemanticToken::DirectiveName, "component"),
            (IsographSemanticToken::String, "\"the route\""),
            (IsographSemanticToken::Brace, "{"),
            (IsographSemanticToken::FieldName, "bar"),
            (IsographSemanticToken::Brace, "}"),
        ],
    );
    assert_eq!(errors, vec![]);
    let field = as_selectable(parse.reference());
    assert!(field.variable_definitions.is_some());
    assert_eq!(
        field
            .directive_set
            .as_ref()
            .expect("the fixture carries a directive")
            .location,
        span_of(text, "@component")
    );
    assert!(field.description.is_some());
}

#[test]
fn a_field_directive_sits_between_the_target_and_the_description() {
    let text = "field Pet.BestFriend to Owner @updatable \"x\" { id }";
    let (parse, errors) = parsed(
        text,
        &[
            (IsographSemanticToken::Keyword, "field"),
            (IsographSemanticToken::Type, "Pet"),
            (IsographSemanticToken::Period, "."),
            (IsographSemanticToken::FieldName, "BestFriend"),
            (IsographSemanticToken::Keyword, "to"),
            (IsographSemanticToken::GraphQLTypeName, "Owner"),
            (IsographSemanticToken::DirectiveName, "@"),
            (IsographSemanticToken::DirectiveName, "updatable"),
            (IsographSemanticToken::String, "\"x\""),
            (IsographSemanticToken::Brace, "{"),
            (IsographSemanticToken::FieldName, "id"),
            (IsographSemanticToken::Brace, "}"),
        ],
    );
    assert_eq!(errors, vec![]);
    let field = as_selectable(parse.reference());
    assert!(field.target_type.is_some());
    assert_eq!(
        field
            .directive_set
            .as_ref()
            .expect("the fixture carries a directive")
            .location,
        span_of(text, "@updatable")
    );
    assert!(field.description.is_some());
}

#[test]
fn a_selection_directive_with_arguments_parses() {
    let text = "field Query.Foo { bar @loadable(lazyLoadArtifact: true) }";
    let (parse, errors) = parsed(
        text,
        &[
            (IsographSemanticToken::Keyword, "field"),
            (IsographSemanticToken::Type, "Query"),
            (IsographSemanticToken::Period, "."),
            (IsographSemanticToken::FieldName, "Foo"),
            (IsographSemanticToken::Brace, "{"),
            (IsographSemanticToken::FieldName, "bar"),
            (IsographSemanticToken::DirectiveName, "@"),
            (IsographSemanticToken::DirectiveName, "loadable"),
            (IsographSemanticToken::Parenthesis, "("),
            (IsographSemanticToken::Argument, "lazyLoadArtifact"),
            (IsographSemanticToken::Colon, ":"),
            (IsographSemanticToken::BooleanOrNull, "true"),
            (IsographSemanticToken::Parenthesis, ")"),
            (IsographSemanticToken::Brace, "}"),
        ],
    );
    assert_eq!(errors, vec![]);
    let selection = as_selection(
        selections(selection_set_of(as_selectable(parse.reference())))[0]
            .item
            .reference(),
    );
    let directives = selection
        .directive_set
        .as_ref()
        .expect("the fixture selects with a directive");
    assert_eq!(
        directives.location,
        span_of(text, "@loadable(lazyLoadArtifact: true)")
    );
    let arguments = directives.item.0[0]
        .item
        .arguments
        .as_ref()
        .expect("the fixture passes arguments");
    assert_eq!(arguments.item.0.len(), 1);
}

#[test]
fn two_directives_on_one_selection_stay_in_one_list() {
    let text = "field Query.Foo { bar @loadable @updatable }";
    let (parse, errors) = parsed(
        text,
        &[
            (IsographSemanticToken::Keyword, "field"),
            (IsographSemanticToken::Type, "Query"),
            (IsographSemanticToken::Period, "."),
            (IsographSemanticToken::FieldName, "Foo"),
            (IsographSemanticToken::Brace, "{"),
            (IsographSemanticToken::FieldName, "bar"),
            (IsographSemanticToken::DirectiveName, "@"),
            (IsographSemanticToken::DirectiveName, "loadable"),
            (IsographSemanticToken::DirectiveName, "@"),
            (IsographSemanticToken::DirectiveName, "updatable"),
            (IsographSemanticToken::Brace, "}"),
        ],
    );
    assert_eq!(errors, vec![]);
    let directives = as_selection(
        selections(selection_set_of(as_selectable(parse.reference())))[0]
            .item
            .reference(),
    )
    .directive_set
    .as_ref()
    .expect("the fixture selects with directives");
    assert_eq!(directives.item.0.len(), 2);
    assert_eq!(directives.location, span_of(text, "@loadable @updatable"));
}

#[test]
fn a_directive_on_the_next_line_is_its_own_failed_selection() {
    let text = "field Query.Foo { bar\n@loadable }";
    let (parse, errors) = parsed(
        text,
        &[
            (IsographSemanticToken::Keyword, "field"),
            (IsographSemanticToken::Type, "Query"),
            (IsographSemanticToken::Period, "."),
            (IsographSemanticToken::FieldName, "Foo"),
            (IsographSemanticToken::Brace, "{"),
            (IsographSemanticToken::FieldName, "bar"),
            (IsographSemanticToken::Content, "@"),
            (IsographSemanticToken::Content, "loadable"),
            (IsographSemanticToken::Brace, "}"),
        ],
    );
    let items = selections(selection_set_of(as_selectable(parse.reference())));
    assert_eq!(items.len(), 2);
    as_selection(items[0].item.reference());
    assert!(items[1].item.item.is_none());
    assert!(errors.iter().any(|error| {
        error.item
            == expected(
                Expectation::Selection,
                Found::Token(NonBracketTokenKind::At),
            )
            && error.location == span_of(text, "@")
    }));
}

#[test]
fn an_unknown_directive_name_parses() {
    let text = "entrypoint Query.foo @notARealDirective";
    let (parse, errors) = parsed(
        text,
        &[
            (IsographSemanticToken::Keyword, "entrypoint"),
            (IsographSemanticToken::Type, "Query"),
            (IsographSemanticToken::Period, "."),
            (IsographSemanticToken::FieldName, "foo"),
            (IsographSemanticToken::DirectiveName, "@"),
            (IsographSemanticToken::DirectiveName, "notARealDirective"),
        ],
    );
    assert_eq!(errors, vec![]);
    assert_eq!(
        as_entrypoint(parse.reference())
            .directive_set
            .as_ref()
            .expect("the fixture carries a directive")
            .item
            .0[0]
            .item
            .name
            .item,
        IsographDirectiveNameWrapper("notARealDirective".to_string())
    );
}

#[test]
fn at_without_a_name_fails_the_host() {
    let text = "entrypoint Query.foo @";
    let end = span_of(text, "@").end;
    assert_no_declaration(
        text,
        expected(Expectation::Token(Identifier), Found::EndOfChunk),
        Span::new(end, end),
        &[
            (IsographSemanticToken::Keyword, "entrypoint"),
            (IsographSemanticToken::Type, "Query"),
            (IsographSemanticToken::Period, "."),
            (IsographSemanticToken::FieldName, "foo"),
            (IsographSemanticToken::DirectiveName, "@"),
        ],
    );
}

#[test]
fn a_selectable_declaration_parses_with_selections() {
    let text = "field Query.Foo {\n  bar,\n  baz\n}";
    let (parse, errors) = parsed(
        text,
        &[
            (IsographSemanticToken::Keyword, "field"),
            (IsographSemanticToken::Type, "Query"),
            (IsographSemanticToken::Period, "."),
            (IsographSemanticToken::FieldName, "Foo"),
            (IsographSemanticToken::Brace, "{"),
            (IsographSemanticToken::FieldName, "bar"),
            (IsographSemanticToken::FieldName, "baz"),
            (IsographSemanticToken::Brace, "}"),
        ],
    );
    let declaration = as_selectable(parse.reference());
    assert_eq!(
        declaration.parent_type.item,
        EntityNameWrapper("Query".to_string())
    );
    assert_eq!(
        declaration.name.item,
        SelectableNameWrapper("Foo".to_string())
    );
    assert_eq!(declaration.parent_type.location, span_of(text, "Query"));
    assert_eq!(declaration.name.location, span_of(text, "Foo"));
    assert_eq!(
        selection_set_of(declaration).location,
        Span::new(span_of(text, "{").start, span_of(text, "}").end)
    );
    let items = selections(selection_set_of(declaration));
    assert_eq!(items.len(), 2);
    assert_eq!(
        as_selection(items[0].item.reference()).name.item,
        SelectionNameWrapper("bar".to_string())
    );
    assert_eq!(
        as_selection(items[0].item.reference()).name.location,
        span_of(text, "bar")
    );
    assert_eq!(
        as_selection(items[1].item.reference()).name.location,
        span_of(text, "baz")
    );
    assert_eq!(items[0].location, span_of(text, "bar"));
    assert_eq!(errors, vec![]);
}

#[test]
fn empty_selection_sets_hold_zero_selections() {
    for text in [
        "field Query.Foo {}",
        "field Query.Foo { }",
        "field Query.Foo {\n}",
    ] {
        let (parse, errors) = parsed(
            text,
            &[
                (IsographSemanticToken::Keyword, "field"),
                (IsographSemanticToken::Type, "Query"),
                (IsographSemanticToken::Period, "."),
                (IsographSemanticToken::FieldName, "Foo"),
                (IsographSemanticToken::Brace, "{"),
                (IsographSemanticToken::Brace, "}"),
            ],
        );
        assert_eq!(
            selections(selection_set_of(as_selectable(parse.reference()))).len(),
            0,
            "for literal {text:?}"
        );
        assert_eq!(errors, vec![], "for literal {text:?}");
    }
}

#[test]
fn a_field_declaration_without_a_selection_set_parses() {
    let text = "field Query.Foo";
    let (parse, errors) = parsed(
        text,
        &[
            (IsographSemanticToken::Keyword, "field"),
            (IsographSemanticToken::Type, "Query"),
            (IsographSemanticToken::Period, "."),
            (IsographSemanticToken::FieldName, "Foo"),
        ],
    );
    assert_eq!(errors, vec![]);
    assert_eq!(as_selectable(parse.reference()).selection_set, None);
}

#[test]
fn a_selection_set_on_its_own_line_is_a_second_declaration() {
    let text = "field Query.Foo\n{ bar }";
    let (parse, errors) = parsed(
        text,
        &[
            (IsographSemanticToken::Keyword, "field"),
            (IsographSemanticToken::Type, "Query"),
            (IsographSemanticToken::Period, "."),
            (IsographSemanticToken::FieldName, "Foo"),
            (IsographSemanticToken::Bracket, "{"),
            (IsographSemanticToken::Content, "bar"),
            (IsographSemanticToken::Bracket, "}"),
        ],
    );
    assert_eq!(as_selectable(parse.reference()).selection_set, None);
    assert_eq!(
        errors,
        AstError::MultipleDeclarations
            .with_span(span_of(text, "{ bar }"))
            .wrap_vec(),
    );
    assert!(parse.item.extra_chunks.as_ref().is_some());
}

#[test]
fn a_final_comma_after_the_selectable_declaration_is_an_error() {
    let text = "field Query.Foo { bar },";
    let (parse, errors) = parsed(
        text,
        &[
            (IsographSemanticToken::Keyword, "field"),
            (IsographSemanticToken::Type, "Query"),
            (IsographSemanticToken::Period, "."),
            (IsographSemanticToken::FieldName, "Foo"),
            (IsographSemanticToken::Brace, "{"),
            (IsographSemanticToken::FieldName, "bar"),
            (IsographSemanticToken::Brace, "}"),
            (IsographSemanticToken::Content, ","),
        ],
    );
    as_selectable(parse.reference());
    assert_eq!(
        errors,
        expected(Expectation::EndOfDeclaration, Found::Token(Comma))
            .with_span(span_of(text, ","))
            .wrap_vec(),
    );
}

#[test]
fn tokens_after_the_selection_set_are_leftover() {
    let text = "field Query.Foo { bar } junk";
    let (parse, errors) = parsed(
        text,
        &[
            (IsographSemanticToken::Keyword, "field"),
            (IsographSemanticToken::Type, "Query"),
            (IsographSemanticToken::Period, "."),
            (IsographSemanticToken::FieldName, "Foo"),
            (IsographSemanticToken::Brace, "{"),
            (IsographSemanticToken::FieldName, "bar"),
            (IsographSemanticToken::Brace, "}"),
            (IsographSemanticToken::Content, "junk"),
        ],
    );
    as_selectable(parse.reference());
    assert!(first_slot(parse.reference()).extra.is_some());
    assert_eq!(
        errors,
        expected(Expectation::EndOfDeclaration, Found::Token(Identifier))
            .with_span(span_of(text, "junk"))
            .wrap_vec(),
    );
}

#[test]
fn a_field_without_a_description_has_none() {
    let text = "field Query.Foo { bar }";
    let (parse, errors) = parsed(
        text,
        &[
            (IsographSemanticToken::Keyword, "field"),
            (IsographSemanticToken::Type, "Query"),
            (IsographSemanticToken::Period, "."),
            (IsographSemanticToken::FieldName, "Foo"),
            (IsographSemanticToken::Brace, "{"),
            (IsographSemanticToken::FieldName, "bar"),
            (IsographSemanticToken::Brace, "}"),
        ],
    );
    assert_eq!(errors, vec![]);
    assert_eq!(as_selectable(parse.reference()).description, None);
}

#[test]
fn a_single_line_description_parses_with_its_quotes() {
    let text = "field Query.Foo \"the home route\" { bar }";
    let (parse, errors) = parsed(
        text,
        &[
            (IsographSemanticToken::Keyword, "field"),
            (IsographSemanticToken::Type, "Query"),
            (IsographSemanticToken::Period, "."),
            (IsographSemanticToken::FieldName, "Foo"),
            (IsographSemanticToken::String, "\"the home route\""),
            (IsographSemanticToken::Brace, "{"),
            (IsographSemanticToken::FieldName, "bar"),
            (IsographSemanticToken::Brace, "}"),
        ],
    );
    assert_eq!(errors, vec![]);
    let description = as_selectable(parse.reference())
        .description
        .as_ref()
        .expect("the fixture carries a description");
    assert_eq!(description.location, span_of(text, "\"the home route\""));
    assert_eq!(
        description.item,
        Description("the home route".to_string())
    );
}

#[test]
fn a_block_string_description_spans_lines_without_splitting_the_chunk() {
    let text = "field Query.Foo \"\"\"\n  the home\n  route\n\"\"\" { bar }";
    let (parse, errors) = parsed(
        text,
        &[
            (IsographSemanticToken::Keyword, "field"),
            (IsographSemanticToken::Type, "Query"),
            (IsographSemanticToken::Period, "."),
            (IsographSemanticToken::FieldName, "Foo"),
            (
                IsographSemanticToken::String,
                "\"\"\"\n  the home\n  route\n\"\"\"",
            ),
            (IsographSemanticToken::Brace, "{"),
            (IsographSemanticToken::FieldName, "bar"),
            (IsographSemanticToken::Brace, "}"),
        ],
    );
    assert_eq!(errors, vec![]);
    let declaration = as_selectable(parse.reference());
    let description = declaration
        .description
        .as_ref()
        .expect("the fixture carries a description");
    assert_eq!(
        description.location,
        span_of(text, "\"\"\"\n  the home\n  route\n\"\"\"")
    );
    assert_eq!(selections(selection_set_of(declaration)).len(), 1);
}

#[test]
fn a_description_after_the_selection_set_is_leftover() {
    let text = "field Query.Foo { bar } \"too late\"";
    let (parse, errors) = parsed(
        text,
        &[
            (IsographSemanticToken::Keyword, "field"),
            (IsographSemanticToken::Type, "Query"),
            (IsographSemanticToken::Period, "."),
            (IsographSemanticToken::FieldName, "Foo"),
            (IsographSemanticToken::Brace, "{"),
            (IsographSemanticToken::FieldName, "bar"),
            (IsographSemanticToken::Brace, "}"),
            (IsographSemanticToken::String, "\"too late\""),
        ],
    );
    as_selectable(parse.reference());
    assert!(first_slot(parse.reference()).extra.is_some());
    assert_eq!(
        errors,
        expected(
            Expectation::EndOfDeclaration,
            Found::Token(NonBracketTokenKind::StringLiteral)
        )
        .with_span(span_of(text, "\"too late\""))
        .wrap_vec(),
    );
}

#[test]
fn an_entrypoint_carries_no_description() {
    let text = "entrypoint Query.foo \"nope\"";
    let (parse, errors) = parsed(
        text,
        &[
            (IsographSemanticToken::Keyword, "entrypoint"),
            (IsographSemanticToken::Type, "Query"),
            (IsographSemanticToken::Period, "."),
            (IsographSemanticToken::FieldName, "foo"),
            (IsographSemanticToken::String, "\"nope\""),
        ],
    );
    as_entrypoint(parse.reference());
    assert_eq!(
        errors,
        expected(
            Expectation::EndOfDeclaration,
            Found::Token(NonBracketTokenKind::StringLiteral)
        )
        .with_span(span_of(text, "\"nope\""))
        .wrap_vec(),
    );
}

#[test]
fn a_field_declaration_with_only_a_description_parses() {
    let text = "field Query.Foo \"the home route\"";
    let (parse, errors) = parsed(
        text,
        &[
            (IsographSemanticToken::Keyword, "field"),
            (IsographSemanticToken::Type, "Query"),
            (IsographSemanticToken::Period, "."),
            (IsographSemanticToken::FieldName, "Foo"),
            (IsographSemanticToken::String, "\"the home route\""),
        ],
    );
    assert_eq!(errors, vec![]);
    let declaration = as_selectable(parse.reference());
    assert!(declaration.description.is_some());
    assert_eq!(declaration.selection_set, None);
}

#[test]
fn a_field_without_to_has_no_target_type() {
    let text = "field Query.Foo { bar }";
    let (parse, errors) = parsed(
        text,
        &[
            (IsographSemanticToken::Keyword, "field"),
            (IsographSemanticToken::Type, "Query"),
            (IsographSemanticToken::Period, "."),
            (IsographSemanticToken::FieldName, "Foo"),
            (IsographSemanticToken::Brace, "{"),
            (IsographSemanticToken::FieldName, "bar"),
            (IsographSemanticToken::Brace, "}"),
        ],
    );
    assert_eq!(errors, vec![]);
    assert_eq!(as_selectable(parse.reference()).target_type, None);
}

#[test]
fn an_empty_union_has_no_members() {
    let union = UnionTypeAnnotation(vec![]);
    assert_eq!(union.0.len(), 0);
}

#[test]
fn a_one_member_union_is_a_named_type() {
    let span = Span::new(0, 3);
    let union = UnionTypeAnnotation(named_union_member("Foo", span).wrap_vec());
    assert_eq!(union.0.len(), 1);
    match union.0[0].item.reference() {
        UnionVariant::Named(named) => {
            assert_eq!(named.name.item, EntityNameWrapper("Foo".to_string()));
            assert_eq!(named.name.location, span);
        }
        variant => panic!("expected Named, got {variant:?}"),
    }
    assert_eq!(union.0[0].location, span.wrap_some());
}

#[test]
fn a_one_member_union_can_be_only_null() {
    let union = UnionTypeAnnotation(
        optional_span(UnionVariant::Null(NullTypeAnnotation), None).wrap_vec(),
    );
    assert_eq!(union.0.len(), 1);
    assert!(matches!(
        union.0[0].item,
        UnionVariant::Null(NullTypeAnnotation)
    ));
    assert_eq!(union.0[0].location, None);
}

#[test]
fn a_three_member_union_keeps_order() {
    let foo = Span::new(0, 3);
    let bar = Span::new(4, 7);
    let union = UnionTypeAnnotation(vec![
        named_union_member("Foo", foo),
        named_union_member("Bar", bar),
        optional_span(UnionVariant::Null(NullTypeAnnotation), None),
    ]);
    assert_eq!(union.0.len(), 3);
    match union.0[0].item.reference() {
        UnionVariant::Named(named) => {
            assert_eq!(named.name.item, EntityNameWrapper("Foo".to_string()));
        }
        variant => panic!("expected Named Foo, got {variant:?}"),
    }
    match union.0[1].item.reference() {
        UnionVariant::Named(named) => {
            assert_eq!(named.name.item, EntityNameWrapper("Bar".to_string()));
        }
        variant => panic!("expected Named Bar, got {variant:?}"),
    }
    assert!(matches!(
        union.0[2].item,
        UnionVariant::Null(NullTypeAnnotation)
    ));
    assert_eq!(union.0[2].location, None);
}

#[test]
fn a_field_with_to_parses_the_target_type() {
    let text = "field Pet.BestFriend to Owner { id }";
    let (parse, errors) = parsed(
        text,
        &[
            (IsographSemanticToken::Keyword, "field"),
            (IsographSemanticToken::Type, "Pet"),
            (IsographSemanticToken::Period, "."),
            (IsographSemanticToken::FieldName, "BestFriend"),
            (IsographSemanticToken::Keyword, "to"),
            (IsographSemanticToken::GraphQLTypeName, "Owner"),
            (IsographSemanticToken::Brace, "{"),
            (IsographSemanticToken::FieldName, "id"),
            (IsographSemanticToken::Brace, "}"),
        ],
    );
    assert_eq!(errors, vec![]);
    let declaration = as_selectable(parse.reference());
    assert_eq!(
        declaration.name.item,
        SelectableNameWrapper("BestFriend".to_string())
    );
    assert_eq!(declaration.name.location, span_of(text, "BestFriend"));
    let target = declaration
        .target_type
        .as_ref()
        .expect("the fixture writes to Owner");
    assert_eq!(target.location, span_of(text, "Owner"));
    match target.item.reference() {
        TypeAnnotation::Union(union) => {
            assert_eq!(union.0.len(), 2);
            match union.0[0].item.reference() {
                UnionVariant::Named(named) => {
                    assert_eq!(named.name.location, span_of(text, "Owner"));
                }
                variant => panic!("expected Named, got {variant:?}"),
            }
            assert_eq!(union.0[0].location, span_of(text, "Owner").wrap_some());
            assert!(matches!(
                union.0[1].item,
                UnionVariant::Null(NullTypeAnnotation)
            ));
            assert_eq!(union.0[1].location, None);
        }
        annotation => panic!("expected Union, got {annotation:?}"),
    }
    assert_eq!(selections(selection_set_of(declaration)).len(), 1);
}

#[test]
fn a_full_field_parses_in_order() {
    let text = "field Pet.Owner($limit: Int) to Person! \"the owner\" { name }";
    let (parse, errors) = parsed(
        text,
        &[
            (IsographSemanticToken::Keyword, "field"),
            (IsographSemanticToken::Type, "Pet"),
            (IsographSemanticToken::Period, "."),
            (IsographSemanticToken::FieldName, "Owner"),
            (IsographSemanticToken::Parenthesis, "("),
            (IsographSemanticToken::Variable, "$"),
            (IsographSemanticToken::Variable, "limit"),
            (IsographSemanticToken::Colon, ":"),
            (IsographSemanticToken::GraphQLTypeName, "Int"),
            (IsographSemanticToken::Parenthesis, ")"),
            (IsographSemanticToken::Keyword, "to"),
            (IsographSemanticToken::GraphQLTypeName, "Person"),
            (IsographSemanticToken::String, "\"the owner\""),
            (IsographSemanticToken::Brace, "{"),
            (IsographSemanticToken::FieldName, "name"),
            (IsographSemanticToken::Brace, "}"),
        ],
    );
    assert_eq!(errors, vec![]);
    let declaration = as_selectable(parse.reference());
    assert!(declaration.variable_definitions.is_some());
    assert_eq!(
        declaration
            .target_type
            .as_ref()
            .expect("the fixture writes to Person!")
            .location,
        span_of(text, "Person")
    );
    assert!(declaration.description.is_some());
}

#[test]
fn a_to_target_accepts_every_type_annotation_form() {
    for (text, target) in [
        ("field Query.Foo to Pet { id }", "Pet"),
        ("field Query.Foo to Pet! { id }", "Pet"),
        ("field Query.Foo to [Pet] { id }", "[Pet]"),
        ("field Query.Foo to [Pet!]! { id }", "[Pet!]"),
        ("field Query.Foo to [[Pet]] { id }", "[[Pet]]"),
    ] {
        let expected_tokens: &[(IsographSemanticToken, &str)] = if text.contains("[[") {
            &[
                (IsographSemanticToken::Keyword, "field"),
                (IsographSemanticToken::Type, "Query"),
                (IsographSemanticToken::Period, "."),
                (IsographSemanticToken::FieldName, "Foo"),
                (IsographSemanticToken::Keyword, "to"),
                (IsographSemanticToken::GraphQLTypeName, "["),
                (IsographSemanticToken::GraphQLTypeName, "["),
                (IsographSemanticToken::GraphQLTypeName, "Pet"),
                (IsographSemanticToken::GraphQLTypeName, "]"),
                (IsographSemanticToken::GraphQLTypeName, "]"),
                (IsographSemanticToken::Brace, "{"),
                (IsographSemanticToken::FieldName, "id"),
                (IsographSemanticToken::Brace, "}"),
            ]
        } else if text.contains('[') {
            &[
                (IsographSemanticToken::Keyword, "field"),
                (IsographSemanticToken::Type, "Query"),
                (IsographSemanticToken::Period, "."),
                (IsographSemanticToken::FieldName, "Foo"),
                (IsographSemanticToken::Keyword, "to"),
                (IsographSemanticToken::GraphQLTypeName, "["),
                (IsographSemanticToken::GraphQLTypeName, "Pet"),
                (IsographSemanticToken::GraphQLTypeName, "]"),
                (IsographSemanticToken::Brace, "{"),
                (IsographSemanticToken::FieldName, "id"),
                (IsographSemanticToken::Brace, "}"),
            ]
        } else {
            &[
                (IsographSemanticToken::Keyword, "field"),
                (IsographSemanticToken::Type, "Query"),
                (IsographSemanticToken::Period, "."),
                (IsographSemanticToken::FieldName, "Foo"),
                (IsographSemanticToken::Keyword, "to"),
                (IsographSemanticToken::GraphQLTypeName, "Pet"),
                (IsographSemanticToken::Brace, "{"),
                (IsographSemanticToken::FieldName, "id"),
                (IsographSemanticToken::Brace, "}"),
            ]
        };
        let (parse, errors) = parsed(text, expected_tokens);
        assert_eq!(errors, vec![], "for literal {text:?}");
        assert_eq!(
            as_selectable(parse.reference())
                .target_type
                .as_ref()
                .expect("the fixture writes a target")
                .location,
            span_of(text, target),
            "for literal {text:?}",
        );
    }
}

#[test]
fn a_bracketed_target_is_a_list_annotation() {
    let text = "field Query.Friends to [Pet!]! { id }";
    let (parse, errors) = parsed(
        text,
        &[
            (IsographSemanticToken::Keyword, "field"),
            (IsographSemanticToken::Type, "Query"),
            (IsographSemanticToken::Period, "."),
            (IsographSemanticToken::FieldName, "Friends"),
            (IsographSemanticToken::Keyword, "to"),
            (IsographSemanticToken::GraphQLTypeName, "["),
            (IsographSemanticToken::GraphQLTypeName, "Pet"),
            (IsographSemanticToken::GraphQLTypeName, "]"),
            (IsographSemanticToken::Brace, "{"),
            (IsographSemanticToken::FieldName, "id"),
            (IsographSemanticToken::Brace, "}"),
        ],
    );
    assert_eq!(errors, vec![]);
    let target = as_selectable(parse.reference())
        .target_type
        .as_ref()
        .expect("the fixture writes a list target");
    assert_eq!(target.location, span_of(text, "[Pet!]"));
    match target.item.reference() {
        TypeAnnotation::List(list) => {
            let inner = list.inner.as_ref().expect("the list holds a type");
            match inner.item.reference() {
                TypeAnnotation::Named(named) => {
                    assert_eq!(named.name.location, span_of(text, "Pet"));
                }
                annotation => panic!("expected a named inner type, got {annotation:?}"),
            }
        }
        annotation => panic!("expected a list target, got {annotation:?}"),
    }
}

#[test]
fn a_named_target_without_bang_is_a_union_with_null() {
    let text = "field Query.Foo to Pet { id }";
    let (parse, errors) = parsed(
        text,
        &[
            (IsographSemanticToken::Keyword, "field"),
            (IsographSemanticToken::Type, "Query"),
            (IsographSemanticToken::Period, "."),
            (IsographSemanticToken::FieldName, "Foo"),
            (IsographSemanticToken::Keyword, "to"),
            (IsographSemanticToken::GraphQLTypeName, "Pet"),
            (IsographSemanticToken::Brace, "{"),
            (IsographSemanticToken::FieldName, "id"),
            (IsographSemanticToken::Brace, "}"),
        ],
    );
    assert_eq!(errors, vec![]);
    let target = as_selectable(parse.reference())
        .target_type
        .as_ref()
        .expect("the fixture writes to Pet");
    assert_eq!(target.location, span_of(text, "Pet"));
    match target.item.reference() {
        TypeAnnotation::Union(union) => {
            assert_eq!(union.0.len(), 2);
            match union.0[0].item.reference() {
                UnionVariant::Named(named) => {
                    assert_eq!(named.name.location, span_of(text, "Pet"));
                }
                variant => panic!("expected Named, got {variant:?}"),
            }
            assert_eq!(union.0[0].location, span_of(text, "Pet").wrap_some());
            assert!(matches!(
                union.0[1].item,
                UnionVariant::Null(NullTypeAnnotation)
            ));
            assert_eq!(union.0[1].location, None);
        }
        annotation => panic!("expected Union, got {annotation:?}"),
    }
}

#[test]
fn a_named_target_with_bang_is_not_null_wrapped() {
    let text = "field Query.Foo to Pet! { id }";
    let (parse, errors) = parsed(
        text,
        &[
            (IsographSemanticToken::Keyword, "field"),
            (IsographSemanticToken::Type, "Query"),
            (IsographSemanticToken::Period, "."),
            (IsographSemanticToken::FieldName, "Foo"),
            (IsographSemanticToken::Keyword, "to"),
            (IsographSemanticToken::GraphQLTypeName, "Pet"),
            (IsographSemanticToken::Brace, "{"),
            (IsographSemanticToken::FieldName, "id"),
            (IsographSemanticToken::Brace, "}"),
        ],
    );
    assert_eq!(errors, vec![]);
    let target = as_selectable(parse.reference())
        .target_type
        .as_ref()
        .expect("the fixture writes to Pet!");
    assert_eq!(target.location, span_of(text, "Pet"));
    match target.item.reference() {
        TypeAnnotation::Named(named) => {
            assert_eq!(named.name.location, span_of(text, "Pet"));
        }
        annotation => panic!("expected Named, got {annotation:?}"),
    }
}

#[test]
fn a_list_target_maps_graphql_nullability() {
    let text = "field Query.Foo to [Pet] { id }";
    let (parse, errors) = parsed(
        text,
        &[
            (IsographSemanticToken::Keyword, "field"),
            (IsographSemanticToken::Type, "Query"),
            (IsographSemanticToken::Period, "."),
            (IsographSemanticToken::FieldName, "Foo"),
            (IsographSemanticToken::Keyword, "to"),
            (IsographSemanticToken::GraphQLTypeName, "["),
            (IsographSemanticToken::GraphQLTypeName, "Pet"),
            (IsographSemanticToken::GraphQLTypeName, "]"),
            (IsographSemanticToken::Brace, "{"),
            (IsographSemanticToken::FieldName, "id"),
            (IsographSemanticToken::Brace, "}"),
        ],
    );
    assert_eq!(errors, vec![]);
    let target = as_selectable(parse.reference())
        .target_type
        .as_ref()
        .expect("the fixture writes to [Pet]");
    match target.item.reference() {
        TypeAnnotation::Union(outer) => {
            assert_eq!(outer.0.len(), 2);
            match outer.0[0].item.reference() {
                UnionVariant::List(list) => {
                    let inner = list.inner.as_ref().expect("the list holds a type");
                    match inner.item.reference() {
                        TypeAnnotation::Union(elem) => {
                            assert_eq!(elem.0.len(), 2);
                            assert!(matches!(elem.0[0].item, UnionVariant::Named(_)));
                            assert!(matches!(
                                elem.0[1].item,
                                UnionVariant::Null(NullTypeAnnotation)
                            ));
                            assert_eq!(elem.0[1].location, None);
                        }
                        annotation => panic!("expected Union element, got {annotation:?}"),
                    }
                }
                variant => panic!("expected List, got {variant:?}"),
            }
            assert!(matches!(
                outer.0[1].item,
                UnionVariant::Null(NullTypeAnnotation)
            ));
            assert_eq!(outer.0[1].location, None);
        }
        annotation => panic!("expected Union list, got {annotation:?}"),
    }
}

#[test]
fn a_non_null_list_of_non_null_named_is_list_of_named() {
    let text = "field Query.Foo to [Pet!]! { id }";
    let (parse, errors) = parsed(
        text,
        &[
            (IsographSemanticToken::Keyword, "field"),
            (IsographSemanticToken::Type, "Query"),
            (IsographSemanticToken::Period, "."),
            (IsographSemanticToken::FieldName, "Foo"),
            (IsographSemanticToken::Keyword, "to"),
            (IsographSemanticToken::GraphQLTypeName, "["),
            (IsographSemanticToken::GraphQLTypeName, "Pet"),
            (IsographSemanticToken::GraphQLTypeName, "]"),
            (IsographSemanticToken::Brace, "{"),
            (IsographSemanticToken::FieldName, "id"),
            (IsographSemanticToken::Brace, "}"),
        ],
    );
    assert_eq!(errors, vec![]);
    let target = as_selectable(parse.reference())
        .target_type
        .as_ref()
        .expect("the fixture writes to [Pet!]!");
    match target.item.reference() {
        TypeAnnotation::List(list) => {
            let inner = list.inner.as_ref().expect("the list holds a type");
            assert!(matches!(inner.item, TypeAnnotation::Named(_)));
            assert_eq!(inner.location, span_of(text, "Pet"));
        }
        annotation => panic!("expected List, got {annotation:?}"),
    }
}

#[test]
fn a_second_bang_is_leftover() {
    let text = "field Query.Foo to Pet!! { id }";
    let (parse, errors) = parsed(
        text,
        &[
            (IsographSemanticToken::Keyword, "field"),
            (IsographSemanticToken::Type, "Query"),
            (IsographSemanticToken::Period, "."),
            (IsographSemanticToken::FieldName, "Foo"),
            (IsographSemanticToken::Keyword, "to"),
            (IsographSemanticToken::GraphQLTypeName, "Pet"),
            (IsographSemanticToken::Content, "!"),
            (IsographSemanticToken::Bracket, "{"),
            (IsographSemanticToken::Content, "id"),
            (IsographSemanticToken::Bracket, "}"),
        ],
    );
    as_selectable(parse.reference());
    let second_bang = Span::new(
        span_of(text, "Pet!!").start + 4,
        span_of(text, "Pet!!").start + 5,
    );
    assert_eq!(
        errors,
        expected(
            EndOfDeclaration,
            Found::Token(NonBracketTokenKind::Exclamation)
        )
        .with_span(second_bang)
        .wrap_vec(),
    );
}

#[test]
fn a_variable_type_without_bang_is_a_union_with_null() {
    let text = "field Query.Foo($x: ID) { bar }";
    let (parse, errors) = parsed(
        text,
        &[
            (IsographSemanticToken::Keyword, "field"),
            (IsographSemanticToken::Type, "Query"),
            (IsographSemanticToken::Period, "."),
            (IsographSemanticToken::FieldName, "Foo"),
            (IsographSemanticToken::Parenthesis, "("),
            (IsographSemanticToken::Variable, "$"),
            (IsographSemanticToken::Variable, "x"),
            (IsographSemanticToken::Colon, ":"),
            (IsographSemanticToken::GraphQLTypeName, "ID"),
            (IsographSemanticToken::Parenthesis, ")"),
            (IsographSemanticToken::Brace, "{"),
            (IsographSemanticToken::FieldName, "bar"),
            (IsographSemanticToken::Brace, "}"),
        ],
    );
    assert_eq!(errors, vec![]);
    let declared = as_declared(variables_of(parse.reference()).item.0[0].item.reference());
    match declared.type_.item.reference() {
        TypeAnnotation::Union(union) => {
            assert_eq!(union.0.len(), 2);
            assert!(matches!(union.0[0].item, UnionVariant::Named(_)));
            assert!(matches!(
                union.0[1].item,
                UnionVariant::Null(NullTypeAnnotation)
            ));
            assert_eq!(union.0[1].location, None);
        }
        annotation => panic!("expected Union, got {annotation:?}"),
    }
}

#[test]
fn a_variable_type_with_bang_is_not_null_wrapped() {
    let text = "field Query.Foo($x: ID!) { bar }";
    let (parse, errors) = parsed(
        text,
        &[
            (IsographSemanticToken::Keyword, "field"),
            (IsographSemanticToken::Type, "Query"),
            (IsographSemanticToken::Period, "."),
            (IsographSemanticToken::FieldName, "Foo"),
            (IsographSemanticToken::Parenthesis, "("),
            (IsographSemanticToken::Variable, "$"),
            (IsographSemanticToken::Variable, "x"),
            (IsographSemanticToken::Colon, ":"),
            (IsographSemanticToken::GraphQLTypeName, "ID"),
            (IsographSemanticToken::Parenthesis, ")"),
            (IsographSemanticToken::Brace, "{"),
            (IsographSemanticToken::FieldName, "bar"),
            (IsographSemanticToken::Brace, "}"),
        ],
    );
    assert_eq!(errors, vec![]);
    let declared = as_declared(variables_of(parse.reference()).item.0[0].item.reference());
    match declared.type_.item.reference() {
        TypeAnnotation::Named(_) => {}
        annotation => panic!("expected Named, got {annotation:?}"),
    }
}

#[test]
fn a_nested_list_target_is_a_union_at_every_layer() {
    let text = "field Query.Foo to [[Pet]] { id }";
    let (parse, errors) = parsed(
        text,
        &[
            (IsographSemanticToken::Keyword, "field"),
            (IsographSemanticToken::Type, "Query"),
            (IsographSemanticToken::Period, "."),
            (IsographSemanticToken::FieldName, "Foo"),
            (IsographSemanticToken::Keyword, "to"),
            (IsographSemanticToken::GraphQLTypeName, "["),
            (IsographSemanticToken::GraphQLTypeName, "["),
            (IsographSemanticToken::GraphQLTypeName, "Pet"),
            (IsographSemanticToken::GraphQLTypeName, "]"),
            (IsographSemanticToken::GraphQLTypeName, "]"),
            (IsographSemanticToken::Brace, "{"),
            (IsographSemanticToken::FieldName, "id"),
            (IsographSemanticToken::Brace, "}"),
        ],
    );
    assert_eq!(errors, vec![]);
    let target = as_selectable(parse.reference())
        .target_type
        .as_ref()
        .expect("the fixture writes to [[Pet]]");
    match target.item.reference() {
        TypeAnnotation::Union(outer) => {
            assert_eq!(outer.0.len(), 2);
            match outer.0[0].item.reference() {
                UnionVariant::List(outer_list) => {
                    let mid = outer_list
                        .inner
                        .as_ref()
                        .expect("the outer list holds a type");
                    match mid.item.reference() {
                        TypeAnnotation::Union(mid_union) => {
                            assert_eq!(mid_union.0.len(), 2);
                            match mid_union.0[0].item.reference() {
                                UnionVariant::List(inner_list) => {
                                    let elem = inner_list
                                        .inner
                                        .as_ref()
                                        .expect("the inner list holds a type");
                                    match elem.item.reference() {
                                        TypeAnnotation::Union(elem_union) => {
                                            assert_eq!(elem_union.0.len(), 2);
                                            assert!(matches!(
                                                elem_union.0[0].item,
                                                UnionVariant::Named(_)
                                            ));
                                            assert!(matches!(
                                                elem_union.0[1].item,
                                                UnionVariant::Null(NullTypeAnnotation)
                                            ));
                                            assert_eq!(elem_union.0[1].location, None);
                                        }
                                        annotation => {
                                            panic!("expected Union named, got {annotation:?}")
                                        }
                                    }
                                }
                                variant => panic!("expected inner List, got {variant:?}"),
                            }
                            assert!(matches!(
                                mid_union.0[1].item,
                                UnionVariant::Null(NullTypeAnnotation)
                            ));
                            assert_eq!(mid_union.0[1].location, None);
                        }
                        annotation => {
                            panic!("expected Union around inner List, got {annotation:?}")
                        }
                    }
                }
                variant => panic!("expected outer List, got {variant:?}"),
            }
            assert!(matches!(
                outer.0[1].item,
                UnionVariant::Null(NullTypeAnnotation)
            ));
            assert_eq!(outer.0[1].location, None);
        }
        annotation => panic!("expected Union around outer List, got {annotation:?}"),
    }
}

#[test]
fn a_nullable_list_of_non_null_named() {
    let text = "field Query.Foo to [Pet!] { id }";
    let (parse, errors) = parsed(
        text,
        &[
            (IsographSemanticToken::Keyword, "field"),
            (IsographSemanticToken::Type, "Query"),
            (IsographSemanticToken::Period, "."),
            (IsographSemanticToken::FieldName, "Foo"),
            (IsographSemanticToken::Keyword, "to"),
            (IsographSemanticToken::GraphQLTypeName, "["),
            (IsographSemanticToken::GraphQLTypeName, "Pet"),
            (IsographSemanticToken::GraphQLTypeName, "]"),
            (IsographSemanticToken::Brace, "{"),
            (IsographSemanticToken::FieldName, "id"),
            (IsographSemanticToken::Brace, "}"),
        ],
    );
    assert_eq!(errors, vec![]);
    let target = as_selectable(parse.reference())
        .target_type
        .as_ref()
        .expect("the fixture writes to [Pet!]");
    match target.item.reference() {
        TypeAnnotation::Union(outer) => {
            assert_eq!(outer.0.len(), 2);
            match outer.0[0].item.reference() {
                UnionVariant::List(list) => {
                    let inner = list.inner.as_ref().expect("the list holds a type");
                    assert!(matches!(inner.item, TypeAnnotation::Named(_)));
                }
                variant => panic!("expected List, got {variant:?}"),
            }
            assert!(matches!(
                outer.0[1].item,
                UnionVariant::Null(NullTypeAnnotation)
            ));
            assert_eq!(outer.0[1].location, None);
        }
        annotation => panic!("expected Union list, got {annotation:?}"),
    }
}

#[test]
fn a_non_null_list_of_nullable_named() {
    let text = "field Query.Foo to [Pet]! { id }";
    let (parse, errors) = parsed(
        text,
        &[
            (IsographSemanticToken::Keyword, "field"),
            (IsographSemanticToken::Type, "Query"),
            (IsographSemanticToken::Period, "."),
            (IsographSemanticToken::FieldName, "Foo"),
            (IsographSemanticToken::Keyword, "to"),
            (IsographSemanticToken::GraphQLTypeName, "["),
            (IsographSemanticToken::GraphQLTypeName, "Pet"),
            (IsographSemanticToken::GraphQLTypeName, "]"),
            (IsographSemanticToken::Brace, "{"),
            (IsographSemanticToken::FieldName, "id"),
            (IsographSemanticToken::Brace, "}"),
        ],
    );
    assert_eq!(errors, vec![]);
    let target = as_selectable(parse.reference())
        .target_type
        .as_ref()
        .expect("the fixture writes to [Pet]!");
    match target.item.reference() {
        TypeAnnotation::List(list) => {
            let inner = list.inner.as_ref().expect("the list holds a type");
            match inner.item.reference() {
                TypeAnnotation::Union(elem) => {
                    assert_eq!(elem.0.len(), 2);
                    assert!(matches!(elem.0[0].item, UnionVariant::Named(_)));
                    assert!(matches!(
                        elem.0[1].item,
                        UnionVariant::Null(NullTypeAnnotation)
                    ));
                    assert_eq!(elem.0[1].location, None);
                }
                annotation => panic!("expected Union element, got {annotation:?}"),
            }
        }
        annotation => panic!("expected List, got {annotation:?}"),
    }
}

#[test]
fn an_empty_list_target_fails_as_a_type() {
    let text = "field Query.Foo to [] { id }";
    let interior = span_of(text, "[]").start + 1;
    assert_no_declaration(
        text,
        expected(Expectation::TypeAnnotation, Found::EndOfChunk),
        Span::new(interior, interior),
        &[
            (IsographSemanticToken::Keyword, "field"),
            (IsographSemanticToken::Type, "Query"),
            (IsographSemanticToken::Period, "."),
            (IsographSemanticToken::FieldName, "Foo"),
            (IsographSemanticToken::Keyword, "to"),
            (IsographSemanticToken::GraphQLTypeName, "["),
            (IsographSemanticToken::GraphQLTypeName, "]"),
            (IsographSemanticToken::Bracket, "{"),
            (IsographSemanticToken::Content, "id"),
            (IsographSemanticToken::Bracket, "}"),
        ],
    );
}

#[test]
fn a_non_to_identifier_is_not_consumed_as_to() {
    let text = "field Query.Foo Owner { id }";
    let (parse, errors) = parsed(
        text,
        &[
            (IsographSemanticToken::Keyword, "field"),
            (IsographSemanticToken::Type, "Query"),
            (IsographSemanticToken::Period, "."),
            (IsographSemanticToken::FieldName, "Foo"),
            (IsographSemanticToken::Content, "Owner"),
            (IsographSemanticToken::Bracket, "{"),
            (IsographSemanticToken::Content, "id"),
            (IsographSemanticToken::Bracket, "}"),
        ],
    );
    as_selectable(parse.reference());
    assert_eq!(as_selectable(parse.reference()).selection_set, None);
    assert_eq!(
        errors,
        expected(EndOfDeclaration, Found::Token(Identifier))
            .with_span(span_of(text, "Owner"))
            .wrap_vec(),
    );
}

#[test]
fn a_missing_target_type_reports_after_to() {
    let text = "field Pet.BestFriend to { id }";
    assert_no_declaration(
        text,
        expected(
            Expectation::TypeAnnotation,
            Found::Group(BracketKind::Brace),
        ),
        span_of(text, "{ id }"),
        &[
            (IsographSemanticToken::Keyword, "field"),
            (IsographSemanticToken::Type, "Pet"),
            (IsographSemanticToken::Period, "."),
            (IsographSemanticToken::FieldName, "BestFriend"),
            (IsographSemanticToken::Keyword, "to"),
            (IsographSemanticToken::Bracket, "{"),
            (IsographSemanticToken::Content, "id"),
            (IsographSemanticToken::Bracket, "}"),
        ],
    );
}

#[test]
fn a_to_at_the_end_of_the_chunk_expects_a_type() {
    let text = "field Pet.BestFriend to";
    let end = span_of(text, "to").end;
    assert_no_declaration(
        text,
        expected(Expectation::TypeAnnotation, Found::EndOfChunk),
        Span::new(end, end),
        &[
            (IsographSemanticToken::Keyword, "field"),
            (IsographSemanticToken::Type, "Pet"),
            (IsographSemanticToken::Period, "."),
            (IsographSemanticToken::FieldName, "BestFriend"),
            (IsographSemanticToken::Keyword, "to"),
        ],
    );
}

#[test]
fn a_to_after_the_description_is_not_a_target() {
    let text = "field Query.Foo \"x\" to Owner { id }";
    let (parse, errors) = parsed(
        text,
        &[
            (IsographSemanticToken::Keyword, "field"),
            (IsographSemanticToken::Type, "Query"),
            (IsographSemanticToken::Period, "."),
            (IsographSemanticToken::FieldName, "Foo"),
            (IsographSemanticToken::String, "\"x\""),
            (IsographSemanticToken::Content, "to"),
            (IsographSemanticToken::Content, "Owner"),
            (IsographSemanticToken::Bracket, "{"),
            (IsographSemanticToken::Content, "id"),
            (IsographSemanticToken::Bracket, "}"),
        ],
    );
    let declaration = as_selectable(parse.reference());
    assert!(declaration.description.is_some());
    assert_eq!(declaration.target_type, None);
    assert_eq!(
        errors,
        expected(EndOfDeclaration, Found::Token(Identifier))
            .with_span(span_of(text, "to"))
            .wrap_vec(),
    );
}

#[test]
fn a_final_comma_after_a_field_with_to_is_an_error() {
    let text = "field Pet.BestFriend to Owner { id },";
    let (parse, errors) = parsed(
        text,
        &[
            (IsographSemanticToken::Keyword, "field"),
            (IsographSemanticToken::Type, "Pet"),
            (IsographSemanticToken::Period, "."),
            (IsographSemanticToken::FieldName, "BestFriend"),
            (IsographSemanticToken::Keyword, "to"),
            (IsographSemanticToken::GraphQLTypeName, "Owner"),
            (IsographSemanticToken::Brace, "{"),
            (IsographSemanticToken::FieldName, "id"),
            (IsographSemanticToken::Brace, "}"),
            (IsographSemanticToken::Content, ","),
        ],
    );
    as_selectable(parse.reference());
    assert_eq!(
        errors,
        expected(Expectation::EndOfDeclaration, Found::Token(Comma))
            .with_span(span_of(text, ","))
            .wrap_vec(),
    );
}

#[test]
fn a_multi_line_variable_list_parses_in_the_demo_style() {
    let text = "field Query.PetCheckinListRoute(\n  $id: ID !\n) {\n  pets\n}";
    let (parse, errors) = parsed(
        text,
        &[
            (IsographSemanticToken::Keyword, "field"),
            (IsographSemanticToken::Type, "Query"),
            (IsographSemanticToken::Period, "."),
            (IsographSemanticToken::FieldName, "PetCheckinListRoute"),
            (IsographSemanticToken::Parenthesis, "("),
            (IsographSemanticToken::Variable, "$"),
            (IsographSemanticToken::Variable, "id"),
            (IsographSemanticToken::Colon, ":"),
            (IsographSemanticToken::GraphQLTypeName, "ID"),
            (IsographSemanticToken::Parenthesis, ")"),
            (IsographSemanticToken::Brace, "{"),
            (IsographSemanticToken::FieldName, "pets"),
            (IsographSemanticToken::Brace, "}"),
        ],
    );
    assert_eq!(errors, vec![]);
    let variables = variables_of(parse.reference());
    assert_eq!(variables.item.0.len(), 1);
    let declared = as_declared(variables.item.0[0].item.reference());
    assert_eq!(
        declared.name.item.0.item,
        VariableNameWrapper("id".to_string())
    );
    assert_eq!(declared.name.item.0.location, span_of(text, "id"));
    assert_eq!(declared.name.location, span_of(text, "$id"));
    match declared.type_.item.reference() {
        TypeAnnotation::Named(named) => {
            assert_eq!(named.name.location, span_of(text, "ID"));
            assert_eq!(declared.type_.location, span_of(text, "ID"));
        }
        annotation => panic!("expected a named type, got {annotation:?}"),
    }
}

#[test]
fn list_types_nest_with_non_null_markers() {
    let text = "field Query.Foo($pets: [Pet!]!) { bar }";
    let (parse, errors) = parsed(
        text,
        &[
            (IsographSemanticToken::Keyword, "field"),
            (IsographSemanticToken::Type, "Query"),
            (IsographSemanticToken::Period, "."),
            (IsographSemanticToken::FieldName, "Foo"),
            (IsographSemanticToken::Parenthesis, "("),
            (IsographSemanticToken::Variable, "$"),
            (IsographSemanticToken::Variable, "pets"),
            (IsographSemanticToken::Colon, ":"),
            (IsographSemanticToken::GraphQLTypeName, "["),
            (IsographSemanticToken::GraphQLTypeName, "Pet"),
            (IsographSemanticToken::GraphQLTypeName, "]"),
            (IsographSemanticToken::Parenthesis, ")"),
            (IsographSemanticToken::Brace, "{"),
            (IsographSemanticToken::FieldName, "bar"),
            (IsographSemanticToken::Brace, "}"),
        ],
    );
    assert_eq!(errors, vec![]);
    let declared = as_declared(variables_of(parse.reference()).item.0[0].item.reference());
    assert_eq!(declared.type_.location, span_of(text, "[Pet!]"));
    let list = match declared.type_.item.reference() {
        TypeAnnotation::List(list) => list.as_ref(),
        annotation => panic!("expected a list type, got {annotation:?}"),
    };
    let inner = list.inner.as_ref().expect("the list holds an element type");
    match inner.item.reference() {
        TypeAnnotation::Named(named) => {
            assert_eq!(named.name.location, span_of(text, "Pet"));
            assert_eq!(inner.location, span_of(text, "Pet"));
        }
        annotation => panic!("expected the named element type, got {annotation:?}"),
    }
}

#[test]
fn defaults_parse_including_variables() {
    let text = "field Query.Foo($limit: Int = 10) { bar }";
    let (parse, errors) = parsed(
        text,
        &[
            (IsographSemanticToken::Keyword, "field"),
            (IsographSemanticToken::Type, "Query"),
            (IsographSemanticToken::Period, "."),
            (IsographSemanticToken::FieldName, "Foo"),
            (IsographSemanticToken::Parenthesis, "("),
            (IsographSemanticToken::Variable, "$"),
            (IsographSemanticToken::Variable, "limit"),
            (IsographSemanticToken::Colon, ":"),
            (IsographSemanticToken::GraphQLTypeName, "Int"),
            (IsographSemanticToken::Equals, "="),
            (IsographSemanticToken::Integer, "10"),
            (IsographSemanticToken::Parenthesis, ")"),
            (IsographSemanticToken::Brace, "{"),
            (IsographSemanticToken::FieldName, "bar"),
            (IsographSemanticToken::Brace, "}"),
        ],
    );
    assert_eq!(errors, vec![]);
    let declared = as_declared(variables_of(parse.reference()).item.0[0].item.reference());
    let default = declared
        .default_value
        .as_ref()
        .expect("the fixture declares a default");
    assert!(matches!(
        default.item,
        NonConstantValue::Integer(IntegerValue(10))
    ));

    let shallow = "field Query.Foo($limit: Int = $other) { bar }";
    let (parse, errors) = parsed(
        shallow,
        &[
            (IsographSemanticToken::Keyword, "field"),
            (IsographSemanticToken::Type, "Query"),
            (IsographSemanticToken::Period, "."),
            (IsographSemanticToken::FieldName, "Foo"),
            (IsographSemanticToken::Parenthesis, "("),
            (IsographSemanticToken::Variable, "$"),
            (IsographSemanticToken::Variable, "limit"),
            (IsographSemanticToken::Colon, ":"),
            (IsographSemanticToken::GraphQLTypeName, "Int"),
            (IsographSemanticToken::Equals, "="),
            (IsographSemanticToken::Variable, "$"),
            (IsographSemanticToken::Variable, "other"),
            (IsographSemanticToken::Parenthesis, ")"),
            (IsographSemanticToken::Brace, "{"),
            (IsographSemanticToken::FieldName, "bar"),
            (IsographSemanticToken::Brace, "}"),
        ],
    );
    assert_eq!(errors, vec![]);
    let declared = as_declared(variables_of(parse.reference()).item.0[0].item.reference());
    let default = declared
        .default_value
        .as_ref()
        .expect("the fixture declares a default");
    assert!(matches!(default.item, NonConstantValue::Variable(_)));

    let list = "field Query.Foo($ids: [ID!] = [1, $x]) { bar }";
    let (parse, errors) = parsed(
        list,
        &[
            (IsographSemanticToken::Keyword, "field"),
            (IsographSemanticToken::Type, "Query"),
            (IsographSemanticToken::Period, "."),
            (IsographSemanticToken::FieldName, "Foo"),
            (IsographSemanticToken::Parenthesis, "("),
            (IsographSemanticToken::Variable, "$"),
            (IsographSemanticToken::Variable, "ids"),
            (IsographSemanticToken::Colon, ":"),
            (IsographSemanticToken::GraphQLTypeName, "["),
            (IsographSemanticToken::GraphQLTypeName, "ID"),
            (IsographSemanticToken::GraphQLTypeName, "]"),
            (IsographSemanticToken::Equals, "="),
            (IsographSemanticToken::Bracket, "["),
            (IsographSemanticToken::Integer, "1"),
            (IsographSemanticToken::Variable, "$"),
            (IsographSemanticToken::Variable, "x"),
            (IsographSemanticToken::Bracket, "]"),
            (IsographSemanticToken::Parenthesis, ")"),
            (IsographSemanticToken::Brace, "{"),
            (IsographSemanticToken::FieldName, "bar"),
            (IsographSemanticToken::Brace, "}"),
        ],
    );
    assert_eq!(errors, vec![]);
    let declared = as_declared(variables_of(parse.reference()).item.0[0].item.reference());
    let default = declared
        .default_value
        .as_ref()
        .expect("the fixture declares a list default");
    match default.item.reference() {
        NonConstantValue::List(list) => {
            assert_eq!(list.0.len(), 2);
            assert!(matches!(
                list.0[0]
                    .item
                    .item
                    .as_ref()
                    .expect("the fixture's first element parsed")
                    .item
                    .value
                    .item,
                NonConstantValue::Integer(IntegerValue(1))
            ));
            assert!(matches!(
                list.0[1]
                    .item
                    .item
                    .as_ref()
                    .expect("the fixture's second element parsed")
                    .item
                    .value
                    .item,
                NonConstantValue::Variable(_)
            ));
        }
        value => panic!("expected a list default, got {value:?}"),
    }

    let deep = "field Query.Foo($input: Input = { pet: $pet }) { bar }";
    let (parse, errors) = parsed(
        deep,
        &[
            (IsographSemanticToken::Keyword, "field"),
            (IsographSemanticToken::Type, "Query"),
            (IsographSemanticToken::Period, "."),
            (IsographSemanticToken::FieldName, "Foo"),
            (IsographSemanticToken::Parenthesis, "("),
            (IsographSemanticToken::Variable, "$"),
            (IsographSemanticToken::Variable, "input"),
            (IsographSemanticToken::Colon, ":"),
            (IsographSemanticToken::GraphQLTypeName, "Input"),
            (IsographSemanticToken::Equals, "="),
            (IsographSemanticToken::Brace, "{"),
            (IsographSemanticToken::ObjectKey, "pet"),
            (IsographSemanticToken::Colon, ":"),
            (IsographSemanticToken::Variable, "$"),
            (IsographSemanticToken::Variable, "pet"),
            (IsographSemanticToken::Brace, "}"),
            (IsographSemanticToken::Parenthesis, ")"),
            (IsographSemanticToken::Brace, "{"),
            (IsographSemanticToken::FieldName, "bar"),
            (IsographSemanticToken::Brace, "}"),
        ],
    );
    assert_eq!(errors, vec![]);
    let declared = as_declared(variables_of(parse.reference()).item.0[0].item.reference());
    let default = declared
        .default_value
        .as_ref()
        .expect("the fixture declares a default");
    match default.item.reference() {
        NonConstantValue::Object(object) => {
            let entry = as_entry(object.0[0].item.reference());
            assert!(matches!(entry.value.item, NonConstantValue::Variable(_)));
        }
        value => panic!("expected an object default, got {value:?}"),
    }

    let cross = "field Query.Foo($foo: String = \"foo\", $bar: Input = { foo: $foo }) { baz }";
    let (parse, errors) = parsed(
        cross,
        &[
            (IsographSemanticToken::Keyword, "field"),
            (IsographSemanticToken::Type, "Query"),
            (IsographSemanticToken::Period, "."),
            (IsographSemanticToken::FieldName, "Foo"),
            (IsographSemanticToken::Parenthesis, "("),
            (IsographSemanticToken::Variable, "$"),
            (IsographSemanticToken::Variable, "foo"),
            (IsographSemanticToken::Colon, ":"),
            (IsographSemanticToken::GraphQLTypeName, "String"),
            (IsographSemanticToken::Equals, "="),
            (IsographSemanticToken::String, "\"foo\""),
            (IsographSemanticToken::Variable, "$"),
            (IsographSemanticToken::Variable, "bar"),
            (IsographSemanticToken::Colon, ":"),
            (IsographSemanticToken::GraphQLTypeName, "Input"),
            (IsographSemanticToken::Equals, "="),
            (IsographSemanticToken::Brace, "{"),
            (IsographSemanticToken::ObjectKey, "foo"),
            (IsographSemanticToken::Colon, ":"),
            (IsographSemanticToken::Variable, "$"),
            (IsographSemanticToken::Variable, "foo"),
            (IsographSemanticToken::Brace, "}"),
            (IsographSemanticToken::Parenthesis, ")"),
            (IsographSemanticToken::Brace, "{"),
            (IsographSemanticToken::FieldName, "baz"),
            (IsographSemanticToken::Brace, "}"),
        ],
    );
    assert_eq!(errors, vec![]);
    let variables = variables_of(parse.reference());
    assert_eq!(variables.item.0.len(), 2);
    let bar = as_declared(variables.item.0[1].item.reference());
    match bar
        .default_value
        .as_ref()
        .expect("bar has a default")
        .item
        .reference()
    {
        NonConstantValue::Object(object) => {
            let entry = as_entry(object.0[0].item.reference());
            assert!(matches!(entry.value.item, NonConstantValue::Variable(_)));
        }
        value => panic!("expected an object default, got {value:?}"),
    }
}

#[test]
fn each_malformed_variable_declaration_degrades_alone() {
    let text = "field Query.Foo($a Int, $b: , id: ID, $c: Float) { bar }";
    let (parse, errors) = parsed(
        text,
        &[
            (IsographSemanticToken::Keyword, "field"),
            (IsographSemanticToken::Type, "Query"),
            (IsographSemanticToken::Period, "."),
            (IsographSemanticToken::FieldName, "Foo"),
            (IsographSemanticToken::Parenthesis, "("),
            (IsographSemanticToken::Variable, "$"),
            (IsographSemanticToken::Variable, "a"),
            (IsographSemanticToken::Content, "Int"),
            (IsographSemanticToken::Variable, "$"),
            (IsographSemanticToken::Variable, "b"),
            (IsographSemanticToken::Colon, ":"),
            (IsographSemanticToken::Content, "id"),
            (IsographSemanticToken::Content, ":"),
            (IsographSemanticToken::Content, "ID"),
            (IsographSemanticToken::Variable, "$"),
            (IsographSemanticToken::Variable, "c"),
            (IsographSemanticToken::Colon, ":"),
            (IsographSemanticToken::GraphQLTypeName, "Float"),
            (IsographSemanticToken::Parenthesis, ")"),
            (IsographSemanticToken::Brace, "{"),
            (IsographSemanticToken::FieldName, "bar"),
            (IsographSemanticToken::Brace, "}"),
        ],
    );
    let variables = variables_of(parse.reference());
    assert_eq!(variables.item.0.len(), 4);
    assert!(variables.item.0[0].item.item.is_none());
    assert!(variables.item.0[1].item.item.is_none());
    assert!(variables.item.0[2].item.item.is_none());
    as_declared(variables.item.0[3].item.reference());
    assert_eq!(errors.len(), 3);
    assert_eq!(errors[0].location, span_of(text, "Int"));
    assert!(errors[1].item == expected(Expectation::TypeAnnotation, Found::EndOfChunk));
    assert_eq!(errors[2].location, span_of(text, "id"));
}

#[test]
fn a_final_comma_inside_a_list_type_is_end_of_type() {
    let text = "field Query.Foo($pets: [Pet,]) { bar }";
    let (parse, errors) = parsed(
        text,
        &[
            (IsographSemanticToken::Keyword, "field"),
            (IsographSemanticToken::Type, "Query"),
            (IsographSemanticToken::Period, "."),
            (IsographSemanticToken::FieldName, "Foo"),
            (IsographSemanticToken::Parenthesis, "("),
            (IsographSemanticToken::Variable, "$"),
            (IsographSemanticToken::Variable, "pets"),
            (IsographSemanticToken::Colon, ":"),
            (IsographSemanticToken::GraphQLTypeName, "["),
            (IsographSemanticToken::GraphQLTypeName, "Pet"),
            (IsographSemanticToken::Content, ","),
            (IsographSemanticToken::GraphQLTypeName, "]"),
            (IsographSemanticToken::Parenthesis, ")"),
            (IsographSemanticToken::Brace, "{"),
            (IsographSemanticToken::FieldName, "bar"),
            (IsographSemanticToken::Brace, "}"),
        ],
    );
    as_declared(variables_of(parse.reference()).item.0[0].item.reference());
    assert_eq!(
        errors,
        expected(Expectation::EndOfType, Found::Token(Comma))
            .with_span(span_of(text, ","))
            .wrap_vec(),
    );
}

#[test]
fn a_line_break_inside_a_list_type_does_not_attach_bang() {
    let text = "field Query.Foo($pets: [Pet\n!]) { bar }";
    let (parse, errors) = parsed(
        text,
        &[
            (IsographSemanticToken::Keyword, "field"),
            (IsographSemanticToken::Type, "Query"),
            (IsographSemanticToken::Period, "."),
            (IsographSemanticToken::FieldName, "Foo"),
            (IsographSemanticToken::Parenthesis, "("),
            (IsographSemanticToken::Variable, "$"),
            (IsographSemanticToken::Variable, "pets"),
            (IsographSemanticToken::Colon, ":"),
            (IsographSemanticToken::GraphQLTypeName, "["),
            (IsographSemanticToken::GraphQLTypeName, "Pet"),
            (IsographSemanticToken::Content, "!"),
            (IsographSemanticToken::GraphQLTypeName, "]"),
            (IsographSemanticToken::Parenthesis, ")"),
            (IsographSemanticToken::Brace, "{"),
            (IsographSemanticToken::FieldName, "bar"),
            (IsographSemanticToken::Brace, "}"),
        ],
    );
    let declared = as_declared(variables_of(parse.reference()).item.0[0].item.reference());
    match declared.type_.item.reference() {
        TypeAnnotation::Union(outer) => {
            assert_eq!(outer.0.len(), 2);
            match outer.0[0].item.reference() {
                UnionVariant::List(list) => {
                    let inner = list.inner.as_ref().expect("chunk 0 parsed Pet");
                    match inner.item.reference() {
                        TypeAnnotation::Union(elem) => {
                            assert!(matches!(elem.0[0].item, UnionVariant::Named(_)));
                            assert_eq!(elem.0[0].location, span_of(text, "Pet").wrap_some());
                            assert!(matches!(
                                elem.0[1].item,
                                UnionVariant::Null(NullTypeAnnotation)
                            ));
                            assert_eq!(elem.0[1].location, None);
                        }
                        annotation => panic!("expected Union element, got {annotation:?}"),
                    }
                }
                variant => panic!("expected List, got {variant:?}"),
            }
            assert!(matches!(
                outer.0[1].item,
                UnionVariant::Null(NullTypeAnnotation)
            ));
            assert_eq!(outer.0[1].location, None);
        }
        annotation => panic!("expected Union list, got {annotation:?}"),
    }
    assert!(errors.iter().any(|error| {
        error.item
            == expected(
                Expectation::EndOfType,
                Found::Token(NonBracketTokenKind::Exclamation),
            )
            && error.location == span_of(text, "!")
    }));
}

#[test]
fn an_empty_variable_list_is_some_and_empty() {
    let text = "field Query.Foo() { bar }";
    let (parse, errors) = parsed(
        text,
        &[
            (IsographSemanticToken::Keyword, "field"),
            (IsographSemanticToken::Type, "Query"),
            (IsographSemanticToken::Period, "."),
            (IsographSemanticToken::FieldName, "Foo"),
            (IsographSemanticToken::Parenthesis, "("),
            (IsographSemanticToken::Parenthesis, ")"),
            (IsographSemanticToken::Brace, "{"),
            (IsographSemanticToken::FieldName, "bar"),
            (IsographSemanticToken::Brace, "}"),
        ],
    );
    assert_eq!(errors, vec![]);
    let variables = as_selectable(parse.reference())
        .variable_definitions
        .as_ref()
        .expect("() is a present list");
    assert_eq!(variables.item.0.len(), 0);
    assert!(as_selectable(parse.reference()).selection_set.is_some());
}

#[test]
fn a_to_without_a_selection_set_parses() {
    let text = "field Query.Foo to Pet";
    let (parse, errors) = parsed(
        text,
        &[
            (IsographSemanticToken::Keyword, "field"),
            (IsographSemanticToken::Type, "Query"),
            (IsographSemanticToken::Period, "."),
            (IsographSemanticToken::FieldName, "Foo"),
            (IsographSemanticToken::Keyword, "to"),
            (IsographSemanticToken::GraphQLTypeName, "Pet"),
        ],
    );
    assert_eq!(errors, vec![]);
    let declaration = as_selectable(parse.reference());
    assert_eq!(
        declaration
            .target_type
            .as_ref()
            .expect("the fixture writes to Pet")
            .location,
        span_of(text, "Pet")
    );
    assert_eq!(declaration.selection_set, None);
}

#[test]
fn a_directive_without_vars_or_to_parses() {
    let text = "field Query.Foo @component { bar }";
    let (parse, errors) = parsed(
        text,
        &[
            (IsographSemanticToken::Keyword, "field"),
            (IsographSemanticToken::Type, "Query"),
            (IsographSemanticToken::Period, "."),
            (IsographSemanticToken::FieldName, "Foo"),
            (IsographSemanticToken::DirectiveName, "@"),
            (IsographSemanticToken::DirectiveName, "component"),
            (IsographSemanticToken::Brace, "{"),
            (IsographSemanticToken::FieldName, "bar"),
            (IsographSemanticToken::Brace, "}"),
        ],
    );
    assert_eq!(errors, vec![]);
    let field = as_selectable(parse.reference());
    assert!(field.variable_definitions.is_none());
    assert_eq!(field.target_type, None);
    assert_eq!(
        field
            .directive_set
            .as_ref()
            .expect("the fixture carries a directive")
            .location,
        span_of(text, "@component")
    );
}

#[test]
fn a_full_header_includes_directives() {
    let text = "field Pet.Owner($limit: Int) to Person! @updatable \"the owner\" { name }";
    let (parse, errors) = parsed(
        text,
        &[
            (IsographSemanticToken::Keyword, "field"),
            (IsographSemanticToken::Type, "Pet"),
            (IsographSemanticToken::Period, "."),
            (IsographSemanticToken::FieldName, "Owner"),
            (IsographSemanticToken::Parenthesis, "("),
            (IsographSemanticToken::Variable, "$"),
            (IsographSemanticToken::Variable, "limit"),
            (IsographSemanticToken::Colon, ":"),
            (IsographSemanticToken::GraphQLTypeName, "Int"),
            (IsographSemanticToken::Parenthesis, ")"),
            (IsographSemanticToken::Keyword, "to"),
            (IsographSemanticToken::GraphQLTypeName, "Person"),
            (IsographSemanticToken::DirectiveName, "@"),
            (IsographSemanticToken::DirectiveName, "updatable"),
            (IsographSemanticToken::String, "\"the owner\""),
            (IsographSemanticToken::Brace, "{"),
            (IsographSemanticToken::FieldName, "name"),
            (IsographSemanticToken::Brace, "}"),
        ],
    );
    assert_eq!(errors, vec![]);
    let declaration = as_selectable(parse.reference());
    assert!(declaration.variable_definitions.is_some());
    assert!(declaration.target_type.is_some());
    assert!(declaration.directive_set.is_some());
    assert!(declaration.description.is_some());
    assert!(declaration.selection_set.is_some());
}

#[test]
fn two_directives_on_a_field_stay_in_one_list() {
    let text = "field Query.Foo @a @b { bar }";
    let (parse, errors) = parsed(
        text,
        &[
            (IsographSemanticToken::Keyword, "field"),
            (IsographSemanticToken::Type, "Query"),
            (IsographSemanticToken::Period, "."),
            (IsographSemanticToken::FieldName, "Foo"),
            (IsographSemanticToken::DirectiveName, "@"),
            (IsographSemanticToken::DirectiveName, "a"),
            (IsographSemanticToken::DirectiveName, "@"),
            (IsographSemanticToken::DirectiveName, "b"),
            (IsographSemanticToken::Brace, "{"),
            (IsographSemanticToken::FieldName, "bar"),
            (IsographSemanticToken::Brace, "}"),
        ],
    );
    assert_eq!(errors, vec![]);
    let directives = as_selectable(parse.reference())
        .directive_set
        .as_ref()
        .expect("the fixture carries directives");
    assert_eq!(directives.item.0.len(), 2);
    assert_eq!(directives.location, span_of(text, "@a @b"));
}

#[test]
fn two_directives_on_an_entrypoint_stay_in_one_list() {
    let text = "entrypoint Query.foo @a @b";
    let (parse, errors) = parsed(
        text,
        &[
            (IsographSemanticToken::Keyword, "entrypoint"),
            (IsographSemanticToken::Type, "Query"),
            (IsographSemanticToken::Period, "."),
            (IsographSemanticToken::FieldName, "foo"),
            (IsographSemanticToken::DirectiveName, "@"),
            (IsographSemanticToken::DirectiveName, "a"),
            (IsographSemanticToken::DirectiveName, "@"),
            (IsographSemanticToken::DirectiveName, "b"),
        ],
    );
    assert_eq!(errors, vec![]);
    let directives = as_entrypoint(parse.reference())
        .directive_set
        .as_ref()
        .expect("the fixture carries directives");
    assert_eq!(directives.item.0.len(), 2);
}

#[test]
fn a_directive_after_the_description_is_leftover() {
    let text = "field Query.Foo \"x\" @component { bar }";
    let (parse, errors) = parsed(
        text,
        &[
            (IsographSemanticToken::Keyword, "field"),
            (IsographSemanticToken::Type, "Query"),
            (IsographSemanticToken::Period, "."),
            (IsographSemanticToken::FieldName, "Foo"),
            (IsographSemanticToken::String, "\"x\""),
            (IsographSemanticToken::Content, "@"),
            (IsographSemanticToken::Content, "component"),
            (IsographSemanticToken::Bracket, "{"),
            (IsographSemanticToken::Content, "bar"),
            (IsographSemanticToken::Bracket, "}"),
        ],
    );
    let declaration = as_selectable(parse.reference());
    assert!(declaration.description.is_some());
    assert_eq!(declaration.directive_set, None);
    assert_eq!(
        errors[0],
        expected(EndOfDeclaration, Found::Token(At)).with_span(span_of(text, "@")),
    );
}

#[test]
fn a_to_after_a_directive_is_leftover() {
    let text = "field Query.Foo @component to Pet { id }";
    let (parse, errors) = parsed(
        text,
        &[
            (IsographSemanticToken::Keyword, "field"),
            (IsographSemanticToken::Type, "Query"),
            (IsographSemanticToken::Period, "."),
            (IsographSemanticToken::FieldName, "Foo"),
            (IsographSemanticToken::DirectiveName, "@"),
            (IsographSemanticToken::DirectiveName, "component"),
            (IsographSemanticToken::Content, "to"),
            (IsographSemanticToken::Content, "Pet"),
            (IsographSemanticToken::Bracket, "{"),
            (IsographSemanticToken::Content, "id"),
            (IsographSemanticToken::Bracket, "}"),
        ],
    );
    let declaration = as_selectable(parse.reference());
    assert!(declaration.directive_set.is_some());
    assert_eq!(declaration.target_type, None);
    assert_eq!(
        errors[0],
        expected(EndOfDeclaration, Found::Token(Identifier)).with_span(span_of(text, "to")),
    );
}

#[test]
fn a_dollar_without_a_name_fails_that_variable() {
    let text = "field Query.Foo($) { bar }";
    let (parse, errors) = parsed(
        text,
        &[
            (IsographSemanticToken::Keyword, "field"),
            (IsographSemanticToken::Type, "Query"),
            (IsographSemanticToken::Period, "."),
            (IsographSemanticToken::FieldName, "Foo"),
            (IsographSemanticToken::Parenthesis, "("),
            (IsographSemanticToken::Variable, "$"),
            (IsographSemanticToken::Parenthesis, ")"),
            (IsographSemanticToken::Brace, "{"),
            (IsographSemanticToken::FieldName, "bar"),
            (IsographSemanticToken::Brace, "}"),
        ],
    );
    as_selectable(parse.reference());
    let variables = variables_of(parse.reference());
    assert!(variables.item.0[0].item.item.is_none());
    let dollar_end = span_of(text, "$").end;
    assert!(errors.iter().any(|error| {
        error.item == expected(token(Identifier), Found::EndOfChunk)
            && error.location == Span::new(dollar_end, dollar_end)
    }));
}

#[test]
fn an_equals_without_a_default_fails_that_variable() {
    let text = "field Query.Foo($id: ID =) { bar }";
    let (parse, errors) = parsed(
        text,
        &[
            (IsographSemanticToken::Keyword, "field"),
            (IsographSemanticToken::Type, "Query"),
            (IsographSemanticToken::Period, "."),
            (IsographSemanticToken::FieldName, "Foo"),
            (IsographSemanticToken::Parenthesis, "("),
            (IsographSemanticToken::Variable, "$"),
            (IsographSemanticToken::Variable, "id"),
            (IsographSemanticToken::Colon, ":"),
            (IsographSemanticToken::GraphQLTypeName, "ID"),
            (IsographSemanticToken::Equals, "="),
            (IsographSemanticToken::Parenthesis, ")"),
            (IsographSemanticToken::Brace, "{"),
            (IsographSemanticToken::FieldName, "bar"),
            (IsographSemanticToken::Brace, "}"),
        ],
    );
    as_selectable(parse.reference());
    let variables = variables_of(parse.reference());
    assert!(variables.item.0[0].item.item.is_none());
    let eq_end = span_of(text, "=").end;
    assert!(errors.iter().any(|error| {
        error.item == expected(Expectation::Value, Found::EndOfChunk)
            && error.location == Span::new(eq_end, eq_end)
    }));
}

#[test]
fn an_alias_without_a_name_fails_that_selection() {
    let text = "field Query.Foo { b: }";
    let (parse, errors) = parsed(
        text,
        &[
            (IsographSemanticToken::Keyword, "field"),
            (IsographSemanticToken::Type, "Query"),
            (IsographSemanticToken::Period, "."),
            (IsographSemanticToken::FieldName, "Foo"),
            (IsographSemanticToken::Brace, "{"),
            (IsographSemanticToken::FieldName, "b"),
            (IsographSemanticToken::Colon, ":"),
            (IsographSemanticToken::Brace, "}"),
        ],
    );
    let items = selections(selection_set_of(as_selectable(parse.reference())));
    assert!(items[0].item.item.is_none());
    let colon_end = span_of(text, ":").end;
    assert!(errors.iter().any(|error| {
        error.item == expected(token(Identifier), Found::EndOfChunk)
            && error.location == Span::new(colon_end, colon_end)
    }));
}

#[test]
fn to_as_a_selectable_name_is_the_name() {
    let text = "field Query.to { bar }";
    let (parse, errors) = parsed(
        text,
        &[
            (IsographSemanticToken::Keyword, "field"),
            (IsographSemanticToken::Type, "Query"),
            (IsographSemanticToken::Period, "."),
            (IsographSemanticToken::FieldName, "to"),
            (IsographSemanticToken::Brace, "{"),
            (IsographSemanticToken::FieldName, "bar"),
            (IsographSemanticToken::Brace, "}"),
        ],
    );
    assert_eq!(errors, vec![]);
    assert_eq!(
        as_selectable(parse.reference()).name.location,
        span_of(text, "to")
    );
    assert_eq!(as_selectable(parse.reference()).target_type, None);
}

#[test]
fn to_as_a_target_type_name_parses() {
    let text = "field Query.Foo to to { bar }";
    let (parse, errors) = parsed(
        text,
        &[
            (IsographSemanticToken::Keyword, "field"),
            (IsographSemanticToken::Type, "Query"),
            (IsographSemanticToken::Period, "."),
            (IsographSemanticToken::FieldName, "Foo"),
            (IsographSemanticToken::Keyword, "to"),
            (IsographSemanticToken::GraphQLTypeName, "to"),
            (IsographSemanticToken::Brace, "{"),
            (IsographSemanticToken::FieldName, "bar"),
            (IsographSemanticToken::Brace, "}"),
        ],
    );
    assert_eq!(errors, vec![]);
    assert_eq!(
        as_selectable(parse.reference()).name.location,
        span_of(text, "Foo")
    );
    match as_selectable(parse.reference())
        .target_type
        .as_ref()
        .expect("the fixture writes a target")
        .item
        .reference()
    {
        TypeAnnotation::Union(union) => {
            assert_eq!(union.0.len(), 2);
            match union.0[0].item.reference() {
                UnionVariant::Named(named) => {
                    assert_eq!(named.name.item, EntityNameWrapper("to".to_string()));
                }
                variant => panic!("expected Named, got {variant:?}"),
            }
            assert!(matches!(
                union.0[1].item,
                UnionVariant::Null(NullTypeAnnotation)
            ));
            assert_eq!(union.0[1].location, None);
        }
        annotation => panic!("expected Union, got {annotation:?}"),
    }
}

#[test]
fn uppercase_to_is_not_the_keyword() {
    let text = "field Query.Foo TO Pet { bar }";
    let (parse, errors) = parsed(
        text,
        &[
            (IsographSemanticToken::Keyword, "field"),
            (IsographSemanticToken::Type, "Query"),
            (IsographSemanticToken::Period, "."),
            (IsographSemanticToken::FieldName, "Foo"),
            (IsographSemanticToken::Content, "TO"),
            (IsographSemanticToken::Content, "Pet"),
            (IsographSemanticToken::Bracket, "{"),
            (IsographSemanticToken::Content, "bar"),
            (IsographSemanticToken::Bracket, "}"),
        ],
    );
    as_selectable(parse.reference());
    assert_eq!(as_selectable(parse.reference()).target_type, None);
    assert_eq!(
        errors,
        expected(EndOfDeclaration, Found::Token(Identifier))
            .with_span(span_of(text, "TO"))
            .wrap_vec(),
    );
}

#[test]
fn true_false_and_null_as_selection_names_are_selections() {
    for name in ["true", "false", "null"] {
        let text = format!("field Query.Foo {{ {name} }}");
        let (parse, errors) = parsed(
            text.reference(),
            &[
                (IsographSemanticToken::Keyword, "field"),
                (IsographSemanticToken::Type, "Query"),
                (IsographSemanticToken::Period, "."),
                (IsographSemanticToken::FieldName, "Foo"),
                (IsographSemanticToken::Brace, "{"),
                (IsographSemanticToken::FieldName, name),
                (IsographSemanticToken::Brace, "}"),
            ],
        );
        assert_eq!(errors, vec![], "for literal {text:?}");
        assert_eq!(
            as_selection(
                selections(selection_set_of(as_selectable(parse.reference())))[0]
                    .item
                    .reference()
            )
            .name
            .item,
            SelectionNameWrapper(name.to_string()),
            "for literal {text:?}",
        );
    }
}

#[test]
fn a_directive_with_empty_arguments_parses() {
    let text = "field Query.Foo { bar @loadable() }";
    let (parse, errors) = parsed(
        text,
        &[
            (IsographSemanticToken::Keyword, "field"),
            (IsographSemanticToken::Type, "Query"),
            (IsographSemanticToken::Period, "."),
            (IsographSemanticToken::FieldName, "Foo"),
            (IsographSemanticToken::Brace, "{"),
            (IsographSemanticToken::FieldName, "bar"),
            (IsographSemanticToken::DirectiveName, "@"),
            (IsographSemanticToken::DirectiveName, "loadable"),
            (IsographSemanticToken::Parenthesis, "("),
            (IsographSemanticToken::Parenthesis, ")"),
            (IsographSemanticToken::Brace, "}"),
        ],
    );
    assert_eq!(errors, vec![]);
    let arguments = as_selection(
        selections(selection_set_of(as_selectable(parse.reference())))[0]
            .item
            .reference(),
    )
    .directive_set
    .as_ref()
    .expect("the fixture selects with a directive")
    .item
    .0[0]
        .item
        .arguments
        .as_ref()
        .expect("() is a present list");
    assert_eq!(arguments.item.0.len(), 0);
}

#[test]
fn a_selection_with_alias_arguments_directives_and_a_nested_set_parses() {
    let text = "field Query.Foo { a: bar(id: $id) @loadable { baz } }";
    let (parse, errors) = parsed(
        text,
        &[
            (IsographSemanticToken::Keyword, "field"),
            (IsographSemanticToken::Type, "Query"),
            (IsographSemanticToken::Period, "."),
            (IsographSemanticToken::FieldName, "Foo"),
            (IsographSemanticToken::Brace, "{"),
            (IsographSemanticToken::FieldName, "a"),
            (IsographSemanticToken::Colon, ":"),
            (IsographSemanticToken::FieldName, "bar"),
            (IsographSemanticToken::Parenthesis, "("),
            (IsographSemanticToken::Argument, "id"),
            (IsographSemanticToken::Colon, ":"),
            (IsographSemanticToken::Variable, "$"),
            (IsographSemanticToken::Variable, "id"),
            (IsographSemanticToken::Parenthesis, ")"),
            (IsographSemanticToken::DirectiveName, "@"),
            (IsographSemanticToken::DirectiveName, "loadable"),
            (IsographSemanticToken::Brace, "{"),
            (IsographSemanticToken::FieldName, "baz"),
            (IsographSemanticToken::Brace, "}"),
            (IsographSemanticToken::Brace, "}"),
        ],
    );
    assert_eq!(errors, vec![]);
    let selection = as_selection(
        selections(selection_set_of(as_selectable(parse.reference())))[0]
            .item
            .reference(),
    );
    assert!(selection.reader_alias.is_some());
    assert!(selection.arguments.is_some());
    assert!(selection.directive_set.is_some());
    assert!(selection.selection_set.is_some());
}

#[test]
fn a_field_with_only_variables_parses() {
    let text = "field Query.Foo($id: ID)";
    let (parse, errors) = parsed(
        text,
        &[
            (IsographSemanticToken::Keyword, "field"),
            (IsographSemanticToken::Type, "Query"),
            (IsographSemanticToken::Period, "."),
            (IsographSemanticToken::FieldName, "Foo"),
            (IsographSemanticToken::Parenthesis, "("),
            (IsographSemanticToken::Variable, "$"),
            (IsographSemanticToken::Variable, "id"),
            (IsographSemanticToken::Colon, ":"),
            (IsographSemanticToken::GraphQLTypeName, "ID"),
            (IsographSemanticToken::Parenthesis, ")"),
        ],
    );
    assert_eq!(errors, vec![]);
    let declaration = as_selectable(parse.reference());
    assert_eq!(variables_of(parse.reference()).item.0.len(), 1);
    assert_eq!(declaration.selection_set, None);
}

#[test]
fn to_as_a_parent_type_name_is_the_parent() {
    let text = "field to.Foo { bar }";
    let (parse, errors) = parsed(
        text,
        &[
            (IsographSemanticToken::Keyword, "field"),
            (IsographSemanticToken::Type, "to"),
            (IsographSemanticToken::Period, "."),
            (IsographSemanticToken::FieldName, "Foo"),
            (IsographSemanticToken::Brace, "{"),
            (IsographSemanticToken::FieldName, "bar"),
            (IsographSemanticToken::Brace, "}"),
        ],
    );
    assert_eq!(errors, vec![]);
    assert_eq!(
        as_selectable(parse.reference()).parent_type.item,
        EntityNameWrapper("to".to_string())
    );
    assert_eq!(
        as_selectable(parse.reference()).parent_type.location,
        span_of(text, "to")
    );
    assert_eq!(as_selectable(parse.reference()).target_type, None);
}

#[test]
fn uppercase_field_is_not_the_keyword() {
    let text = "FIELD Query.Foo { bar }";
    assert_no_declaration(
        text,
        expected(DECLARATION_KEYWORD, Found::Token(Identifier)),
        span_of(text, "FIELD"),
        &[
            (IsographSemanticToken::Keyword, "FIELD"),
            (IsographSemanticToken::Content, "Query"),
            (IsographSemanticToken::Content, "."),
            (IsographSemanticToken::Content, "Foo"),
            (IsographSemanticToken::Bracket, "{"),
            (IsographSemanticToken::Content, "bar"),
            (IsographSemanticToken::Bracket, "}"),
        ],
    );
}

#[test]
fn at_without_a_name_fails_that_selection() {
    let text = "field Query.Foo { bar @ }";
    let (parse, errors) = parsed(
        text,
        &[
            (IsographSemanticToken::Keyword, "field"),
            (IsographSemanticToken::Type, "Query"),
            (IsographSemanticToken::Period, "."),
            (IsographSemanticToken::FieldName, "Foo"),
            (IsographSemanticToken::Brace, "{"),
            (IsographSemanticToken::FieldName, "bar"),
            (IsographSemanticToken::DirectiveName, "@"),
            (IsographSemanticToken::Brace, "}"),
        ],
    );
    let items = selections(selection_set_of(as_selectable(parse.reference())));
    assert_eq!(items.len(), 1);
    assert!(items[0].item.item.is_none());
    let at_end = span_of(text, "@").end;
    assert!(errors.iter().any(|error| {
        error.item == expected(token(Identifier), Found::EndOfChunk)
            && error.location == Span::new(at_end, at_end)
    }));
}

#[test]
fn an_entrypoint_directive_with_arguments_parses() {
    let text = "entrypoint Query.foo @lazyLoad(x: 1)";
    let (parse, errors) = parsed(
        text,
        &[
            (IsographSemanticToken::Keyword, "entrypoint"),
            (IsographSemanticToken::Type, "Query"),
            (IsographSemanticToken::Period, "."),
            (IsographSemanticToken::FieldName, "foo"),
            (IsographSemanticToken::DirectiveName, "@"),
            (IsographSemanticToken::DirectiveName, "lazyLoad"),
            (IsographSemanticToken::Parenthesis, "("),
            (IsographSemanticToken::Argument, "x"),
            (IsographSemanticToken::Colon, ":"),
            (IsographSemanticToken::Integer, "1"),
            (IsographSemanticToken::Parenthesis, ")"),
        ],
    );
    assert_eq!(errors, vec![]);
    let arguments = as_entrypoint(parse.reference())
        .directive_set
        .as_ref()
        .expect("the fixture carries a directive")
        .item
        .0[0]
        .item
        .arguments
        .as_ref()
        .expect("the fixture passes arguments");
    assert_eq!(arguments.item.0.len(), 1);
    assert_eq!(arguments.location, span_of(text, "(x: 1)"));
}

#[test]
fn a_field_directive_with_arguments_parses() {
    let text = "field Query.Foo @component(x: 1) { bar }";
    let (parse, errors) = parsed(
        text,
        &[
            (IsographSemanticToken::Keyword, "field"),
            (IsographSemanticToken::Type, "Query"),
            (IsographSemanticToken::Period, "."),
            (IsographSemanticToken::FieldName, "Foo"),
            (IsographSemanticToken::DirectiveName, "@"),
            (IsographSemanticToken::DirectiveName, "component"),
            (IsographSemanticToken::Parenthesis, "("),
            (IsographSemanticToken::Argument, "x"),
            (IsographSemanticToken::Colon, ":"),
            (IsographSemanticToken::Integer, "1"),
            (IsographSemanticToken::Parenthesis, ")"),
            (IsographSemanticToken::Brace, "{"),
            (IsographSemanticToken::FieldName, "bar"),
            (IsographSemanticToken::Brace, "}"),
        ],
    );
    assert_eq!(errors, vec![]);
    let arguments = as_selectable(parse.reference())
        .directive_set
        .as_ref()
        .expect("the fixture carries a directive")
        .item
        .0[0]
        .item
        .arguments
        .as_ref()
        .expect("the fixture passes arguments");
    assert_eq!(arguments.item.0.len(), 1);
    assert_eq!(arguments.location, span_of(text, "(x: 1)"));
}

#[test]
fn a_single_line_description_drops_the_quotes() {
    let text = "\"the home route\"";
    let tree = chunked(text);
    let mut out = ParseOutput { tokens: Vec::new(), errors: Vec::new() };
    let mut cursor = ItemCursor::new(&tree.item.0[0].item.contents);
    let description =
        consume_description(&mut cursor, &mut out, text).expect("the fixture is a string description");
    assert_eq!(description.location, span_of(text, "\"the home route\""));
    assert_eq!(
        description.item,
        Description("the home route".to_string())
    );
    assert_eq!(out.errors, vec![]);
    assert_semantic_tokens(
        text,
        &out.tokens,
        &[(IsographSemanticToken::String, "\"the home route\"")],
    );
}

#[test]
fn an_empty_string_is_a_description() {
    let text = "\"\"";
    let tree = chunked(text);
    let mut out = ParseOutput { tokens: Vec::new(), errors: Vec::new() };
    let mut cursor = ItemCursor::new(&tree.item.0[0].item.contents);
    let description =
        consume_description(&mut cursor, &mut out, text).expect("the fixture is a string description");
    assert_eq!(description.location, span_of(text, "\"\""));
    assert_eq!(description.item, Description("".to_string()));
    assert_semantic_tokens(text, &out.tokens, &[(IsographSemanticToken::String, "\"\"")]);
}

#[test]
fn a_block_string_description_is_one_token_including_line_breaks() {
    let text = "\"\"\"\n  the home\n  route\n\"\"\"";
    let tree = chunked(text);
    assert_eq!(tree.item.0.len(), 1);
    let mut out = ParseOutput { tokens: Vec::new(), errors: Vec::new() };
    let mut cursor = ItemCursor::new(&tree.item.0[0].item.contents);
    let description = consume_description(&mut cursor, &mut out, text)
        .expect("the fixture is a block-string description");
    assert_eq!(
        description.location,
        span_of(text, "\"\"\"\n  the home\n  route\n\"\"\"")
    );
    assert_eq!(
        description.item,
        Description("the home\nroute".to_string())
    );
    assert_eq!(out.errors, vec![]);
    assert_semantic_tokens(
        text,
        &out.tokens,
        &[(
            IsographSemanticToken::String,
            "\"\"\"\n  the home\n  route\n\"\"\"",
        )],
    );
}

#[test]
fn a_block_string_with_line_breaks_does_not_split_the_chunk() {
    let text = "Foo \"\"\"\n  the home\n  route\n\"\"\" Bar";
    let tree = chunked(text);
    assert_eq!(tree.item.0.len(), 1);
    let mut out = ParseOutput { tokens: Vec::new(), errors: Vec::new() };
    let mut cursor = ItemCursor::new(&tree.item.0[0].item.contents);
    assert_eq!(
        cursor
            .consume_token_if(
                    &mut out,
                NonBracketTokenKind::Identifier,
                IsographSemanticToken::FieldName
            )
            ,
        span_of(text, "Foo").wrap_some(),
    );
    let description =
        consume_description(&mut cursor, &mut out, text).expect("the fixture carries a block-string description");
    assert_eq!(
        description.location,
        span_of(text, "\"\"\"\n  the home\n  route\n\"\"\"")
    );
    assert_eq!(
        cursor
            .consume_token_if(
                    &mut out,
                NonBracketTokenKind::Identifier,
                IsographSemanticToken::FieldName
            )
            ,
        span_of(text, "Bar").wrap_some(),
    );
    assert_semantic_tokens(
        text,
        &out.tokens,
        &[
            (IsographSemanticToken::FieldName, "Foo"),
            (
                IsographSemanticToken::String,
                "\"\"\"\n  the home\n  route\n\"\"\"",
            ),
            (IsographSemanticToken::FieldName, "Bar"),
        ],
    );
}

#[test]
fn a_description_does_not_consume_the_following_item() {
    let text = "\"hi\" Foo";
    let tree = chunked(text);
    let mut out = ParseOutput { tokens: Vec::new(), errors: Vec::new() };
    let mut cursor = ItemCursor::new(&tree.item.0[0].item.contents);
    let description =
        consume_description(&mut cursor, &mut out, text).expect("the fixture starts with a description");
    assert_eq!(description.location, span_of(text, "\"hi\""));
    assert_eq!(
        cursor
            .consume_token_if(
                    &mut out,
                NonBracketTokenKind::Identifier,
                IsographSemanticToken::FieldName
            )
            ,
        span_of(text, "Foo").wrap_some(),
    );
    assert_semantic_tokens(
        text,
        &out.tokens,
        &[
            (IsographSemanticToken::String, "\"hi\""),
            (IsographSemanticToken::FieldName, "Foo"),
        ],
    );
}

#[test]
fn a_non_string_is_not_a_description() {
    let text = "Foo";
    let tree = chunked(text);
    let mut out = ParseOutput { tokens: Vec::new(), errors: Vec::new() };
    {
        let mut cursor = ItemCursor::new(&tree.item.0[0].item.contents);
        assert_eq!(consume_description(&mut cursor, &mut out, text), None);
    }
    assert_semantic_tokens(text, &out.tokens, &[]);
    assert_eq!(out.errors, vec![]);
    let mut cursor = ItemCursor::new(&tree.item.0[0].item.contents);
    assert_eq!(consume_description(&mut cursor, &mut out, text), None);
    assert_eq!(
        cursor
            .consume_token_if(
                    &mut out,
                NonBracketTokenKind::Identifier,
                IsographSemanticToken::FieldName
            )
            ,
        span_of(text, "Foo").wrap_some(),
    );
    assert_semantic_tokens(text, &out.tokens, &[(IsographSemanticToken::FieldName, "Foo")]);
}

#[test]
fn a_brace_group_is_not_a_description() {
    let text = "{ bar }";
    let tree = chunked(text);
    let mut out = ParseOutput { tokens: Vec::new(), errors: Vec::new() };
    {
        let mut cursor = ItemCursor::new(&tree.item.0[0].item.contents);
        assert_eq!(consume_description(&mut cursor, &mut out, text), None);
    }
    assert_semantic_tokens(text, &out.tokens, &[]);
    let mut cursor = ItemCursor::new(&tree.item.0[0].item.contents);
    assert_eq!(consume_description(&mut cursor, &mut out, text), None);
    assert!(cursor.at_group(BracketKind::Brace));
    let group = cursor.commit(&mut out, IsographSemanticToken::Brace);
    let closing = match &group.item {
        ChunkContentItem::Group(inner) => inner.closing.location,
        ChunkContentItem::NonBracket(_) => panic!("the fixture is a brace group"),
    };
    out.record(IsographSemanticToken::Brace, closing);
    assert_eq!(group.location, span_of(text, "{ bar }"));
    assert_semantic_tokens(
        text,
        &out.tokens,
        &[
            (IsographSemanticToken::Brace, "{"),
            (IsographSemanticToken::Brace, "}"),
        ],
    );
}

#[test]
fn an_unterminated_string_is_not_a_description() {
    let text = "\"unterminated";
    let tree = chunked(text);
    let mut out = ParseOutput { tokens: Vec::new(), errors: Vec::new() };
    {
        let mut cursor = ItemCursor::new(&tree.item.0[0].item.contents);
        assert_eq!(consume_description(&mut cursor, &mut out, text), None);
    }
    assert_semantic_tokens(text, &out.tokens, &[]);
    let mut cursor = ItemCursor::new(&tree.item.0[0].item.contents);
    assert_eq!(consume_description(&mut cursor, &mut out, text), None);
    assert_eq!(
        cursor
            .consume_token_if(
                    &mut out,
                NonBracketTokenKind::ErrorUnterminatedString,
                IsographSemanticToken::Error
            )
            ,
        span_of(text, "\"unterminated").wrap_some(),
    );
    assert_semantic_tokens(
        text,
        &out.tokens,
        &[(IsographSemanticToken::Error, "\"unterminated")],
    );
}

#[test]
fn an_empty_block_string_is_a_description() {
    let text = "\"\"\"\"\"\"";
    let tree = chunked(text);
    let mut out = ParseOutput { tokens: Vec::new(), errors: Vec::new() };
    let mut cursor = ItemCursor::new(&tree.item.0[0].item.contents);
    let description = consume_description(&mut cursor, &mut out, text)
        .expect("the fixture is a block-string description");
    assert_eq!(description.location, span_of(text, "\"\"\"\"\"\""));
    assert_eq!(description.item, Description("".to_string()));
    assert_semantic_tokens(
        text,
        &out.tokens,
        &[(IsographSemanticToken::String, "\"\"\"\"\"\"")],
    );
}

#[test]
fn extra_chunks_hold_every_root_chunk_after_the_first_in_order() {
    let text = "entrypoint Query.foo\nfield User.name\nfield User.id";
    let parsed = parse_iso_literal(text, tokenize(text));
    let parse = parsed.item.expect("the fixture is not an empty literal");
    let extra = parse.item.extra_chunks.as_ref().expect("two chunks follow the first");
    let locations: Vec<Span> = extra.item.0.iter().map(|chunk| chunk.location).collect();
    assert_eq!(
        locations,
        vec![span_of(text, "field User.name\n"), span_of(text, "field User.id")],
    );
    assert_eq!(extra.location, span_of(text, "field User.name\nfield User.id"));
}

#[test]
fn unread_items_hold_exactly_the_items_after_the_declaration() {
    let text = "entrypoint Query.foo bar baz";
    let parsed = parse_iso_literal(text, tokenize(text));
    let parse = parsed.item.expect("the fixture is not an empty literal");
    let extra = first_slot(parse.reference()).extra.as_ref().expect("bar baz is extra");
    let locations: Vec<Span> = extra.item.0.iter().map(|item| item.location).collect();
    assert_eq!(locations, vec![span_of(text, "bar"), span_of(text, "baz")]);
    assert_eq!(extra.location, span_of(text, "bar baz"));
}

#[test]
fn a_boundary_comma_is_the_one_unread_item_of_a_singleton() {
    let text = "entrypoint Query.foo,";
    let parsed = parse_iso_literal(text, tokenize(text));
    let parse = parsed.item.expect("the fixture is not an empty literal");
    let extra = first_slot(parse.reference()).extra.as_ref().expect("the comma is extra");
    let locations: Vec<Span> = extra.item.0.iter().map(|item| item.location).collect();
    assert_eq!(locations, vec![span_of(text, ",")]);
}

#[test]
fn a_parse_spans_the_whole_literal_and_is_never_an_empty_literal() {
    for text in ["entrypoint Query.foo", "  field User.name { id }\n", "junk", "entrypoint\nQuery.foo"] {
        let parsed = parse_iso_literal(text, tokenize(text));
        let item = parsed.item.as_ref().expect("the literal has chunks");
        assert_eq!(item.location, Span::new(0, text.len() as u32), "for literal {text:?}");
        assert!(
            !parsed.errors.iter().any(|e| e.item == IsoLiteralError::Ast(ParseError::EmptyLiteral)),
            "for literal {text:?}"
        );
    }
    for text in ["", "\n\n", "   "] {
        let parsed = parse_iso_literal(text, tokenize(text));
        assert!(parsed.item.is_none());
        assert!(parsed.errors.iter().any(|e| e.item == IsoLiteralError::Ast(ParseError::EmptyLiteral)));
    }
}
