use isograph_parser::chunk_stream::{ItemCursor, ParseOutput};
use isograph_parser::slot::finish_chunk;
use isograph_parser::{
    Expectation, IsographSemanticToken, ParseError, Slot, UnparsedChunkItems,
    chunk, match_brackets, BracketError, BracketKind, Chunk, ChunkContentItem, ChunkSeparator,
    ChunkedGroup, ChunkedLevel, CommaWithoutItem, IsographLangTokenKind, MatchedBrackets,
    NonBracketToken, NonBracketTokenKind, SeparatorToken, Span, WithSpan,
};
use BracketKind::Brace;

/// A small tokenizer for the fixtures: identifiers, integers, strings, block strings,
/// punctuation, brackets and line breaks, spaces and tabs skipped.
fn tokenize(text: &str) -> Vec<WithSpan<IsographLangTokenKind>> {
    let bytes = text.as_bytes();
    let mut tokens = Vec::new();
    let mut i = 0;
    while i < bytes.len() {
        let start = i;
        let c = bytes[i];
        let kind = match c {
            b' ' | b'\t' => {
                i += 1;
                continue;
            }
            b'\r' => {
                i += if i + 1 < bytes.len() && bytes[i + 1] == b'\n' { 2 } else { 1 };
                IsographLangTokenKind::LineBreak
            }
            b'\n' => {
                i += 1;
                IsographLangTokenKind::LineBreak
            }
            b'@' => { i += 1; IsographLangTokenKind::At }
            b':' => { i += 1; IsographLangTokenKind::Colon }
            b'$' => { i += 1; IsographLangTokenKind::Dollar }
            b'=' => { i += 1; IsographLangTokenKind::Equals }
            b'!' => { i += 1; IsographLangTokenKind::Exclamation }
            b'.' => { i += 1; IsographLangTokenKind::Period }
            b',' => { i += 1; IsographLangTokenKind::Comma }
            b'(' => { i += 1; IsographLangTokenKind::OpenParenthesis }
            b')' => { i += 1; IsographLangTokenKind::CloseParenthesis }
            b'{' => { i += 1; IsographLangTokenKind::OpenBrace }
            b'}' => { i += 1; IsographLangTokenKind::CloseBrace }
            b'[' => { i += 1; IsographLangTokenKind::OpenBracket }
            b']' => { i += 1; IsographLangTokenKind::CloseBracket }
            b'"' => {
                if text[i..].starts_with("\"\"\"") {
                    i += 3;
                    loop {
                        if i >= bytes.len() {
                            break IsographLangTokenKind::ErrorUnterminatedBlockString;
                        }
                        if text[i..].starts_with("\\\"\"\"") {
                            i += 4;
                        } else if text[i..].starts_with("\"\"\"") {
                            i += 3;
                            break IsographLangTokenKind::BlockStringLiteral;
                        } else {
                            i += 1;
                        }
                    }
                } else {
                    i += 1;
                    loop {
                        if i >= bytes.len() || bytes[i] == b'\n' || bytes[i] == b'\r' {
                            break IsographLangTokenKind::ErrorUnterminatedString;
                        }
                        if bytes[i] == b'\\' {
                            i += 2;
                        } else if bytes[i] == b'"' {
                            i += 1;
                            break IsographLangTokenKind::StringLiteral;
                        } else {
                            i += 1;
                        }
                    }
                }
            }
            b'-' | b'0'..=b'9' => {
                i += 1;
                while i < bytes.len() && bytes[i].is_ascii_digit() {
                    i += 1;
                }
                IsographLangTokenKind::IntegerLiteral
            }
            b'a'..=b'z' | b'A'..=b'Z' | b'_' => {
                while i < bytes.len() && (bytes[i].is_ascii_alphanumeric() || bytes[i] == b'_') {
                    i += 1;
                }
                IsographLangTokenKind::Identifier
            }
            _ => {
                i += 1;
                IsographLangTokenKind::Error
            }
        };
        tokens.push(WithSpan::new(kind, Span::new(start as u32, i as u32)));
    }
    tokens
}

/// The span of `pattern`, which must occur exactly once in `text`.
fn span_of(text: &str, pattern: &str) -> Span {
    let mut occurrences = text.match_indices(pattern);
    let (offset, _) = occurrences
        .next()
        .expect("the pattern the test anchors on occurs in the literal");
    assert!(
        occurrences.next().is_none(),
        "the pattern the test anchors on occurs exactly once in the literal"
    );
    Span::new(offset as u32, (offset + pattern.len()) as u32)
}

fn tree(literal: &str) -> (WithSpan<MatchedBrackets>, Vec<BracketError>) {
    match_brackets(tokenize(literal), literal.len() as u32)
}

fn chunked(literal: &str) -> WithSpan<ChunkedLevel> {
    let (brackets, bracket_errors) = tree(literal);
    assert_eq!(bracket_errors, vec![]);
    let (chunked, comma_errors) = chunk(&brackets);
    assert_eq!(comma_errors, vec![]);
    chunked
}

/// For fixtures whose bracket tree is clean but whose chunking errs.
fn chunked_with_commas(literal: &str) -> (WithSpan<ChunkedLevel>, Vec<CommaWithoutItem>) {
    let (brackets, bracket_errors) = tree(literal);
    assert_eq!(bracket_errors, vec![]);
    chunk(&brackets)
}

fn chunk_span(chunk: &Chunk) -> Span {
    let contents = Span::join(chunk.contents.first().location, chunk.contents.last().location);
    match &chunk.trailing_separator {
        Some(separator) => Span::join(contents, separator.location),
        None => contents,
    }
}

fn render_chunk<'a>(literal: &'a str, chunk: &Chunk) -> &'a str {
    let span = chunk_span(chunk);
    &literal[span.start as usize..span.end as usize]
}

fn content_item(chunk: &Chunk, index: usize) -> &ChunkContentItem {
    &chunk.contents.get(index).item
}

fn contents_len(chunk: &Chunk) -> usize {
    chunk.contents.len()
}

fn as_group(item: &ChunkContentItem) -> &ChunkedGroup {
    match item {
        ChunkContentItem::Group(group) => group,
        other => panic!("expected a group, got {other:?}"),
    }
}

fn as_non_bracket(item: &ChunkContentItem) -> NonBracketToken {
    match item {
        ChunkContentItem::NonBracket(token) => *token,
        other => panic!("expected a non-bracket token, got {other:?}"),
    }
}

fn separator_kinds(separator: &ChunkSeparator) -> Vec<SeparatorToken> {
    separator.0.iter().map(|s| s.item).collect()
}

#[test]
fn a_selection_set_splits_on_commas_and_line_breaks() {
    let text = "foo { bar, baz\nqux }";
    let tree = chunked(text);
    assert_eq!(tree.item.0.len(), 1);
    let top = &tree.item.0[0].item;
    assert_eq!(contents_len(top), 2);
    assert_eq!(as_non_bracket(content_item(top, 0)).0, NonBracketTokenKind::Identifier);
    let brace = as_group(content_item(top, 1));
    assert_eq!(brace.opening.item.0, Brace);
    assert!(top.trailing_separator.is_none());

    let interior = &brace.children.item.0;
    assert_eq!(interior.len(), 3);
    assert_eq!(
        as_non_bracket(content_item(&interior[0].item, 0)).0,
        NonBracketTokenKind::Identifier
    );
    assert_eq!(
        separator_kinds(&interior[0].item.trailing_separator.as_ref().unwrap().item),
        vec![SeparatorToken::Comma]
    );
    assert_eq!(
        separator_kinds(&interior[1].item.trailing_separator.as_ref().unwrap().item),
        vec![SeparatorToken::LineBreak]
    );
    assert!(interior[2].item.trailing_separator.is_none());
    assert_eq!(render_chunk(text, &interior[0].item), "bar,");
    assert_eq!(render_chunk(text, &interior[1].item), "baz\n");
    assert_eq!(render_chunk(text, &interior[2].item), "qux");
}

#[test]
fn multiple_groups_share_one_chunk_and_empty_interiors_are_zero_chunks() {
    let text = "foo { } { }";
    let tree = chunked(text);
    assert_eq!(tree.item.0.len(), 1);
    let top = &tree.item.0[0].item;
    assert_eq!(contents_len(top), 3);
    assert_eq!(as_non_bracket(content_item(top, 0)).0, NonBracketTokenKind::Identifier);
    let first = as_group(content_item(top, 1));
    let second = as_group(content_item(top, 2));
    assert_eq!(first.children.item.0.len(), 0);
    assert_eq!(second.children.item.0.len(), 0);
    assert!(top.trailing_separator.is_none());
}

#[test]
fn an_empty_brace_group_has_an_empty_interior_level() {
    let text = "{}";
    let tree = chunked(text);
    assert_eq!(tree.item.0.len(), 1);
    let top = &tree.item.0[0].item;
    assert_eq!(contents_len(top), 1);
    let brace = as_group(content_item(top, 0));
    assert_eq!(brace.children.item.0.len(), 0);
    assert_eq!(
        brace.children.location,
        Span::new(span_of(text, "{").end, span_of(text, "}").start)
    );
}

#[test]
fn commas_and_line_breaks_are_equivalent_separators() {
    let comma = chunked("a, b");
    let linebreak = chunked("a\nb");
    assert_eq!(comma.item.0.len(), 2);
    assert_eq!(linebreak.item.0.len(), 2);
    assert_eq!(
        separator_kinds(&comma.item.0[0].item.trailing_separator.as_ref().unwrap().item),
        vec![SeparatorToken::Comma]
    );
    assert_eq!(
        separator_kinds(&linebreak.item.0[0].item.trailing_separator.as_ref().unwrap().item),
        vec![SeparatorToken::LineBreak]
    );
    assert!(comma.item.0[1].item.trailing_separator.is_none());
    assert!(linebreak.item.0[1].item.trailing_separator.is_none());
}

#[test]
fn captured_line_breaks_make_no_chunk() {
    let text = "\n\na, b\n";
    let tree = chunked(text);
    assert_eq!(tree.item.0.len(), 2);
    assert_eq!(render_chunk(text, &tree.item.0[0].item), "a,");
    assert_eq!(tree.location, Span::new(0, text.len() as u32));

    let interior = "foo {\n bar\n}";
    let tree = chunked(interior);
    let brace = as_group(content_item(&tree.item.0[0].item, 1));
    assert_eq!(brace.children.item.0.len(), 1);
    assert_eq!(render_chunk(interior, &brace.children.item.0[0].item), "bar\n");
}

#[test]
fn a_comma_before_the_first_item_is_an_error() {
    let text = "\n, a";
    let (chunked, errors) = chunked_with_commas(text);
    assert_eq!(errors, vec![CommaWithoutItem(span_of(text, ","))]);
    assert_eq!(chunked.item.0.len(), 1);
    assert_eq!(render_chunk(text, &chunked.item.0[0].item), "a");
}

#[test]
fn a_second_comma_after_line_breaks_is_an_error() {
    let text = "a,\n\n,b";
    let (chunked, errors) = chunked_with_commas(text);
    let second_comma = span_of(text, ",b");
    assert_eq!(
        errors,
        vec![CommaWithoutItem(Span::new(second_comma.start, second_comma.start + 1))]
    );
    assert_eq!(chunked.item.0.len(), 2);
    assert_eq!(render_chunk(text, &chunked.item.0[0].item), "a,\n\n");
    assert_eq!(render_chunk(text, &chunked.item.0[1].item), "b");
}

#[test]
fn doubled_leading_commas_are_two_errors_in_order() {
    let text = ",,a";
    let (chunked, errors) = chunked_with_commas(text);
    let commas = span_of(text, ",,");
    assert_eq!(
        errors,
        vec![
            CommaWithoutItem(Span::new(commas.start, commas.start + 1)),
            CommaWithoutItem(Span::new(commas.start + 1, commas.end)),
        ]
    );
    assert_eq!(chunked.item.0.len(), 1);
    assert_eq!(render_chunk(text, &chunked.item.0[0].item), "a");
}

#[test]
fn a_trailing_doubled_comma_keeps_the_item() {
    let text = "a, ,";
    let (chunked, errors) = chunked_with_commas(text);
    let anchor = span_of(text, ", ,");
    assert_eq!(errors, vec![CommaWithoutItem(Span::new(anchor.end - 1, anchor.end))]);
    assert_eq!(chunked.item.0.len(), 1);
    assert_eq!(render_chunk(text, &chunked.item.0[0].item), "a,");
}

#[test]
fn an_interior_comma_then_an_item_keeps_the_item() {
    let text = "{, a }";
    let (chunked, errors) = chunked_with_commas(text);
    assert_eq!(errors, vec![CommaWithoutItem(span_of(text, ","))]);
    assert_eq!(chunked.item.0.len(), 1);
    let brace = as_group(content_item(&chunked.item.0[0].item, 0));
    assert_eq!(brace.children.item.0.len(), 1);
    assert_eq!(render_chunk(text, &brace.children.item.0[0].item), "a");
}

#[test]
fn a_list_trailing_comma_is_not_a_chunking_error() {
    let text = "foo { a, }";
    let chunked = chunked(text);
    let brace = as_group(content_item(&chunked.item.0[0].item, 1));
    assert_eq!(brace.children.item.0.len(), 1);
}

#[test]
fn non_separator_tokens_stay_in_one_chunk() {
    let text = "bar, baz watttt, qux";
    let tree = chunked(text);
    assert_eq!(tree.item.0.len(), 3);
    let middle = &tree.item.0[1].item;
    assert_eq!(contents_len(middle), 2);
    assert_eq!(render_chunk(text, middle), "baz watttt,");
}

#[test]
fn a_line_break_before_a_group_splits_the_field_from_its_selection_set() {
    let text = "foo\n{ bar }";
    let tree = chunked(text);
    assert_eq!(tree.item.0.len(), 2);
    let first = &tree.item.0[0].item;
    assert_eq!(contents_len(first), 1);
    assert_eq!(
        separator_kinds(&first.trailing_separator.as_ref().unwrap().item),
        vec![SeparatorToken::LineBreak]
    );
    let second = &tree.item.0[1].item;
    assert_eq!(contents_len(second), 1);
    as_group(content_item(second, 0));
    assert!(second.trailing_separator.is_none());
}

#[test]
fn an_unmatched_close_rides_inside_a_chunk_and_errors_stay_on_the_bracket_tree() {
    let text = "a ) b";
    let (brackets, errors) = tree(text);
    match errors.as_slice() {
        [BracketError::UnmatchedClose(close)] => {
            assert_eq!(close.item.0, BracketKind::Parenthesis);
            assert_eq!(close.location, span_of(text, ")"));
        }
        errors => panic!("expected exactly the unmatched close, got {errors:?}"),
    }
    let (tree, comma_errors) = chunk(&brackets);
    assert_eq!(comma_errors, vec![]);
    assert_eq!(tree.item.0.len(), 1);
    let top = &tree.item.0[0].item;
    assert_eq!(contents_len(top), 1);
    assert_eq!(as_non_bracket(content_item(top, 0)).0, NonBracketTokenKind::Identifier);
    assert_eq!(top.contents.get(0).location, span_of(text, "a"));
    assert_eq!(render_chunk(text, top), "a");
}

#[test]
fn an_unclosed_brace_demotes_to_raw_items_at_the_top() {
    let text = "foo { bar";
    let (brackets, errors) = tree(text);
    match errors.as_slice() {
        [BracketError::UnmatchedOpen(open)] => {
            assert_eq!(open.item.0, Brace);
            assert_eq!(open.location, span_of(text, "{"));
        }
        errors => panic!("expected exactly the unmatched open, got {errors:?}"),
    }
    let (tree, comma_errors) = chunk(&brackets);
    assert_eq!(comma_errors, vec![]);
    assert_eq!(tree.item.0.len(), 1);
    let top = &tree.item.0[0].item;
    assert_eq!(contents_len(top), 1);
    assert_eq!(as_non_bracket(content_item(top, 0)).0, NonBracketTokenKind::Identifier);
    assert_eq!(top.contents.get(0).location, span_of(text, "foo"));
    assert_eq!(render_chunk(text, top), "foo");
}

#[test]
fn whitespace_only_and_empty_literals_are_empty_levels() {
    for text in ["   ", "", "\n\n"] {
        let tree = chunked(text);
        assert_eq!(tree.item.len(), 0);
        assert_eq!(tree.location, Span::new(0, text.len() as u32));
    }
}

#[test]
fn contents_span_stops_at_the_last_content_item() {
    let text = "foo,";
    let tree = chunked(text);
    let top = &tree.item.0[0].item;
    assert_eq!(top.contents_span(), span_of(text, "foo"));
    assert_eq!(top.boundary_comma(), Some(span_of(text, ",")));
    assert_eq!(top.first_item().location, span_of(text, "foo"));
    match &top.first_item().item {
        ChunkContentItem::NonBracket(token) => {
            assert_eq!(token.0, NonBracketTokenKind::Identifier);
        }
        other => panic!("expected the identifier, got {other:?}"),
    }
}

#[test]
fn a_chunk_without_a_comma_has_no_boundary_comma() {
    let text = "foo\nbar";
    let tree = chunked(text);
    assert_eq!(tree.item.len(), 2);
    assert_eq!(tree.item.0[0].item.boundary_comma(), None);
    assert_eq!(tree.item.0[1].item.boundary_comma(), None);
}

#[test]
fn chunk_spans_are_tight_to_their_parts() {
    let text = "foo { bar, baz }";
    let tree = chunked(text);
    let top = &tree.item.0[0];
    assert_eq!(top.location, chunk_span(&top.item));
    assert_eq!(
        top.location,
        Span::new(span_of(text, "foo").start, span_of(text, "}").end)
    );
    let interior = &as_group(content_item(&top.item, 1)).children.item.0;
    assert_eq!(interior[0].location, span_of(text, "bar,"));
    assert_eq!(
        interior[1].location,
        Span::new(span_of(text, "baz").start, span_of(text, "baz").end)
    );
}

#[test]
fn a_boundary_keeps_line_breaks_after_its_comma_and_stops_at_a_second_comma() {
    let text = "a\n,\n\n, b";
    let (chunked, errors) = chunked_with_commas(text);
    assert_eq!(chunked.item.0.len(), 2);
    assert_eq!(
        separator_kinds(&chunked.item.0[0].item.trailing_separator.as_ref().unwrap().item),
        vec![
            SeparatorToken::LineBreak,
            SeparatorToken::Comma,
            SeparatorToken::LineBreak,
            SeparatorToken::LineBreak,
        ]
    );
    assert_eq!(chunked.item.0[0].item.boundary_comma(), Some(Span::new(2, 3)));
    assert_eq!(errors, vec![CommaWithoutItem(Span::new(5, 6))]);
}

#[test]
fn every_content_token_lands_in_exactly_one_chunk() {
    let text = "a b, c\nd e f,\n g";
    let tree = chunked(text);
    let mut identifiers = 0;
    for chunk in &tree.item.0 {
        identifiers += contents_len(&chunk.item);
    }
    assert_eq!(identifiers, 7);
    for chunk in &tree.item.0[..tree.item.0.len() - 1] {
        assert!(chunk.item.trailing_separator.is_some());
    }
}

#[test]
fn nested_errors_come_before_later_outer_errors() {
    let text = "x { , y } , , z";
    let (_, errors) = chunked_with_commas(text);
    assert_eq!(
        errors,
        vec![
            CommaWithoutItem(Span::new(4, 5)),
            CommaWithoutItem(Span::new(12, 13)),
        ]
    );
}

fn parse_identifier(
    cursor: &mut ItemCursor,
    out: &mut ParseOutput,
) -> Result<Span, WithSpan<ParseError>> {
    cursor.require_token(
        out,
        NonBracketTokenKind::Identifier,
        IsographSemanticToken::FieldName,
        Expectation::Token(NonBracketTokenKind::Identifier),
    )
}

type ParsedEach = (
    Vec<WithSpan<Slot<Span, UnparsedChunkItems>>>,
    Vec<WithSpan<ParseError>>,
    Vec<CommaWithoutItem>,
    Vec<WithSpan<IsographSemanticToken>>,
);

/// Parses each chunk of the root level as one identifier, as a parenthesized list would.
fn parsed_each(text: &str) -> ParsedEach {
    let (tree, comma_errors) = chunked_with_commas(text);
    let mut out = ParseOutput { tokens: Vec::new(), errors: Vec::new() };
    let mut items = Vec::new();
    for chunk in tree.item.0.iter() {
        let mut cursor = ItemCursor::new(&chunk.item.contents);
        let start = cursor.span_start();
        let before = cursor.previous_end;
        let parsed = match parse_identifier(&mut cursor, &mut out) {
            Ok(item) => Ok(WithSpan::new(item, cursor.span_since(start, before))),
            Err(error) => Err(error),
        };
        let (extra, location) = finish_chunk(
            &cursor,
            match &parsed {
                Ok(wrapped) => Ok(wrapped.location),
                Err(error) => Err(*error),
            },
            Expectation::Separator(BracketKind::Parenthesis),
            &mut out,
        );
        items.push(WithSpan::new(Slot { item: parsed.ok(), extra }, location));
    }
    (items, out.errors, comma_errors, out.tokens)
}

#[test]
fn parse_each_chunk_on_an_empty_level_is_no_slots_and_no_errors() {
    for text in ["", "   ", "\n\n"] {
        let (items, errors, comma_errors, tokens) = parsed_each(text);
        assert_eq!(items, vec![], "for literal {text:?}");
        assert_eq!(errors, vec![], "for literal {text:?}");
        assert_eq!(comma_errors, vec![], "for literal {text:?}");
        assert_eq!(tokens, vec![], "for literal {text:?}");
    }
}

#[test]
fn parse_each_chunk_parses_one_identifier_per_chunk() {
    let text = "foo, bar";
    let (items, errors, comma_errors, tokens) = parsed_each(text);
    assert_eq!(comma_errors, vec![]);
    assert_eq!(errors, vec![]);
    assert_eq!(items.len(), 2);
    assert_eq!(items[0].item.item.as_ref().map(|item| item.item), Some(span_of(text, "foo")));
    assert_eq!(items[1].item.item.as_ref().map(|item| item.item), Some(span_of(text, "bar")));
    assert!(items[0].item.extra.is_none());
    assert!(items[1].item.extra.is_none());
    assert_eq!(
        tokens,
        vec![
            WithSpan::new(IsographSemanticToken::FieldName, span_of(text, "foo")),
            WithSpan::new(IsographSemanticToken::FieldName, span_of(text, "bar")),
        ],
    );
}

#[test]
fn a_list_trailing_comma_is_not_a_parse_each_chunk_diagnostic() {
    let text = "foo,";
    let (items, errors, comma_errors, _) = parsed_each(text);
    assert_eq!(comma_errors, vec![]);
    assert_eq!(errors, vec![]);
    assert_eq!(items.len(), 1);
    assert_eq!(items[0].item.item.as_ref().map(|item| item.item), Some(span_of(text, "foo")));
    assert!(items[0].item.extra.is_none());
}

#[test]
fn a_line_break_is_a_list_separator() {
    let text = "foo\nbar";
    let (items, errors, comma_errors, _) = parsed_each(text);
    assert_eq!(comma_errors, vec![]);
    assert_eq!(errors, vec![]);
    assert_eq!(items.len(), 2);
    assert_eq!(items[0].item.item.as_ref().map(|item| item.item), Some(span_of(text, "foo")));
    assert_eq!(items[1].item.item.as_ref().map(|item| item.item), Some(span_of(text, "bar")));
}

#[test]
fn a_comma_without_item_is_chunkings_error_and_the_item_parses() {
    let text = ",foo";
    let (items, errors, comma_errors, _) = parsed_each(text);
    assert_eq!(comma_errors.len(), 1);
    assert_eq!(errors, vec![]);
    assert_eq!(items.len(), 1);
    assert_eq!(items[0].item.item.as_ref().map(|item| item.item), Some(span_of(text, "foo")));
}

#[test]
fn an_unread_item_after_a_list_item_is_extra_with_its_leftover_role() {
    let text = "foo bar";
    let (items, errors, comma_errors, tokens) = parsed_each(text);
    assert_eq!(comma_errors, vec![]);
    assert_eq!(items.len(), 1);
    assert_eq!(items[0].item.item.as_ref().map(|item| item.item), Some(span_of(text, "foo")));
    assert_eq!(items[0].item.extra.as_ref().map(|extra| extra.location), Some(span_of(text, "bar")));
    assert_eq!(items[0].location, span_of(text, "foo bar"));
    assert_eq!(
        errors,
        vec![WithSpan::new(
            ParseError::expected(
                Expectation::Separator(BracketKind::Parenthesis),
                isograph_parser::Found::Token(NonBracketTokenKind::Identifier),
            ),
            span_of(text, "bar"),
        )],
    );
    assert_eq!(
        tokens,
        vec![
            WithSpan::new(IsographSemanticToken::FieldName, span_of(text, "foo")),
            WithSpan::new(IsographSemanticToken::Content, span_of(text, "bar")),
        ],
    );
}
