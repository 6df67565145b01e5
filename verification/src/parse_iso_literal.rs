use vstd::prelude::*;

use crate::arguments::{lemma_chunk_in_text, lemma_token_in_text, name_of};
use crate::chunk::{
    chunk_view_of, chunk_views_of, lemma_chunk_views_of_len, Chunk, ChunkNode, ChunkView,
    ChunkedLevel,
};
use crate::chunk_stream::{
    cnode_location, commit, next_is_token, report, s_require, span_start, start_cur, Cur,
    ItemCursor, Out, ParseOutput, adds_no_empty_literal, only_appends,
};
use crate::directives::{
    consume_directives, directive_list_view, s_directives, DirectiveView,
    IsographFieldDirectiveList,
};
use crate::chunk::{chunk, chunks_from, CommaWithoutItem};
use crate::leftover::{copy_chunk, fill_chunks_from, fill_chunks_from_index};
use crate::matched_brackets::{match_brackets, spec_root, BracketError};
use crate::provenance::{law_chunk_tree_tokens_fit, tokens_fit};
use crate::token_kind::IsographLangTokenKind;
use crate::non_bracket_token::NonBracketTokenKind;
use crate::nonempty_lists::{chunks_held, new_chunks, push_chunk};
use crate::parse_error::{Expectation, ExpectedFound, Found, ParseError};
use crate::selections::{
    consume_selection_set, s_selection_set, selection_set_view, SelectionSet, SelectionView,
};
use crate::semantic_token::IsographSemanticToken;
use crate::slot::{
    attach_boundary_comma, attach_comma, chunks_in_text, finish_chunk, nodes_in_text,
    report_boundary_comma, s_boundary_comma, s_slot,
    spanned, token_text, unparsed_view, ExtraChunks, Singleton, Slot, SlotView,
    UnparsedChunkItems,
};
use crate::span::{Span, WithSpan};
use crate::string_value::{clean_block_string, spec_clean_block_string};
use crate::text::{span_text, strip, text_is, token_interior};
use crate::variables::{
    consume_variable_declaration_list, declaration_list_view, parse_type_annotation,
    s_declaration_list, s_type_annotation, TypeAnnotation, TypeView, VariableDeclarationList,
    VariableDeclarationView
};

verus! {

/// The name of a schema type, `Query` in `entrypoint Query.foo`.
#[derive(Clone, Debug, PartialEq, Eq)]
pub struct EntityNameWrapper(pub String);

/// The name of an entrypoint or selectable, `foo` in `entrypoint Query.foo`.
#[derive(Clone, Debug, PartialEq, Eq)]
pub struct SelectableNameWrapper(pub String);

/// The contents of a description, quotes excluded; a block string's cleaned.
#[derive(Clone, Debug, PartialEq, Eq)]
pub struct Description(pub String);

/// The declaration a literal holds.
#[derive(Debug, PartialEq, Eq)]
pub enum IsoLiteralItem {
    Entrypoint(EntrypointDeclaration),
    Selectable(SelectableDeclaration),
}

/// `entrypoint Type.name @directives`.
#[derive(Debug, PartialEq, Eq)]
pub struct EntrypointDeclaration {
    pub parent_type: WithSpan<EntityNameWrapper>,
    pub name: WithSpan<SelectableNameWrapper>,
    pub directive_set: Option<WithSpan<IsographFieldDirectiveList>>,
}

/// `field Type.name($vars) to Target @directives "description" { selections }`, everything
/// after the name optional.
#[derive(Debug, PartialEq, Eq)]
pub struct SelectableDeclaration {
    pub parent_type: WithSpan<EntityNameWrapper>,
    pub name: WithSpan<SelectableNameWrapper>,
    pub variable_definitions: Option<WithSpan<VariableDeclarationList>>,
    pub target_type: Option<WithSpan<TypeAnnotation>>,
    pub directive_set: Option<WithSpan<IsographFieldDirectiveList>>,
    pub description: Option<WithSpan<Description>>,
    pub selection_set: Option<WithSpan<SelectionSet>>,
}

/// An error of a literal: of its brackets, its commas, or its grammar.
#[derive(Copy, Clone, Debug, PartialEq, Eq)]
pub enum IsoLiteralError {
    Ast(ParseError),
    Bracket(BracketError),
    Comma(CommaWithoutItem),
}

/// What parsing a literal gives: the parse, unless the literal is empty; every error, the
/// brackets' first, then the commas', then the grammar's; and the role of every token read.
#[derive(Debug)]
pub struct ParsedIsoLiteral {
    pub item: Option<WithSpan<IsoLiteralParse>>,
    pub errors: Vec<WithSpan<IsoLiteralError>>,
    pub tokens: Vec<WithSpan<IsographSemanticToken>>,
}

/// The parse of a literal's chunk tree: its first chunk's slot, and the chunks after it.
pub type IsoLiteralParse = Singleton<Slot<IsoLiteralItem, UnparsedChunkItems>, ExtraChunks>;

/// The abstract value of a declaration.
pub enum ItemView {
    Entrypoint {
        parent_type: WithSpan<Seq<char>>,
        name: WithSpan<Seq<char>>,
        directive_set: Option<WithSpan<Seq<WithSpan<DirectiveView>>>>,
    },
    Selectable {
        parent_type: WithSpan<Seq<char>>,
        name: WithSpan<Seq<char>>,
        variable_definitions: Option<WithSpan<Seq<WithSpan<SlotView<VariableDeclarationView>>>>>,
        target_type: Option<WithSpan<TypeView>>,
        directive_set: Option<WithSpan<Seq<WithSpan<DirectiveView>>>>,
        description: Option<WithSpan<Seq<char>>>,
        selection_set: Option<WithSpan<Seq<WithSpan<SlotView<SelectionView>>>>>,
    },
}

/// The abstract value of a literal's parse.
pub struct LiteralView {
    pub item: WithSpan<SlotView<ItemView>>,
    pub extra_chunks: Option<WithSpan<Seq<ChunkView>>>,
}

pub open spec fn item_view(i: IsoLiteralItem) -> ItemView {
    match i {
        IsoLiteralItem::Entrypoint(e) => ItemView::Entrypoint {
            parent_type: WithSpan { item: e.parent_type.item.0@, location: e.parent_type.location },
            name: WithSpan { item: e.name.item.0@, location: e.name.location },
            directive_set: directive_list_view(e.directive_set),
        },
        IsoLiteralItem::Selectable(s) => ItemView::Selectable {
            parent_type: WithSpan { item: s.parent_type.item.0@, location: s.parent_type.location },
            name: WithSpan { item: s.name.item.0@, location: s.name.location },
            variable_definitions: declaration_list_view(s.variable_definitions),
            target_type: match s.target_type {
                Some(t) => Some(crate::variables::spanned_type_view(t)),
                None => None,
            },
            directive_set: directive_list_view(s.directive_set),
            description: match s.description {
                Some(d) => Some(WithSpan { item: d.item.0@, location: d.location }),
                None => None,
            },
            selection_set: selection_set_view(s.selection_set),
        },
    }
}

pub open spec fn literal_view(p: Option<WithSpan<IsoLiteralParse>>) -> Option<WithSpan<LiteralView>> {
    match p {
        Some(w) => Some(
            WithSpan {
                item: LiteralView {
                    item: WithSpan {
                        item: SlotView {
                            item: match w.item.item.item.item {
                                Some(i) => Some(WithSpan { item: item_view(i.item), location: i.location }),
                                None => None,
                            },
                            extra: unparsed_view(w.item.item.item.extra),
                        },
                        location: w.item.item.location,
                    },
                    extra_chunks: match w.item.extra_chunks {
                        Some(e) => Some(
                            WithSpan { item: chunk_views_of(chunks_held(e.item.0)), location: e.location },
                        ),
                        None => None,
                    },
                },
                location: w.location,
            },
        ),
        None => None,
    }
}

/// Reading `Type.name`.
pub open spec fn s_type_dot_name(items: Seq<ChunkNode>, cur: Cur, out: Out, text: &str) -> (
    Result<(WithSpan<Seq<char>>, WithSpan<Seq<char>>), WithSpan<ParseError>>,
    Cur,
    Out,
) {
    let t = s_require(
        items,
        cur,
        out,
        NonBracketTokenKind::Identifier,
        IsographSemanticToken::Type,
        Expectation::Token(NonBracketTokenKind::Identifier),
    );
    match t.0 {
        Err(e) => (Err(e), t.1, t.2),
        Ok(parent_type) => {
            let p = s_require(
                items,
                t.1,
                t.2,
                NonBracketTokenKind::Period,
                IsographSemanticToken::Period,
                Expectation::Token(NonBracketTokenKind::Period),
            );
            match p.0 {
                Err(e) => (Err(e), p.1, p.2),
                Ok(_) => {
                    let n = s_require(
                        items,
                        p.1,
                        p.2,
                        NonBracketTokenKind::Identifier,
                        IsographSemanticToken::FieldName,
                        Expectation::Token(NonBracketTokenKind::Identifier),
                    );
                    match n.0 {
                        Err(e) => (Err(e), n.1, n.2),
                        Ok(name) => (Ok((name_of(text, parent_type), name_of(text, name))), n.1, n.2),
                    }
                },
            }
        },
    }
}

/// Reading an entrypoint after its keyword.
pub open spec fn s_entrypoint(items: Seq<ChunkNode>, cur: Cur, out: Out, text: &str) -> (
    Result<ItemView, WithSpan<ParseError>>,
    Cur,
    Out,
) {
    let t = s_type_dot_name(items, cur, out, text);
    match t.0 {
        Err(e) => (Err(e), t.1, t.2),
        Ok(names) => {
            let d = s_directives(items, t.1, t.2, text);
            match d.0 {
                Err(e) => (Err(e), d.1, d.2),
                Ok(directive_set) => (
                    Ok(ItemView::Entrypoint { parent_type: names.0, name: names.1, directive_set }),
                    d.1,
                    d.2,
                ),
            }
        },
    }
}

/// Reading `to Type` when the next item is the identifier `to`; nothing otherwise.
pub open spec fn s_to_target(items: Seq<ChunkNode>, cur: Cur, out: Out, text: &str) -> (
    Result<Option<WithSpan<TypeView>>, WithSpan<ParseError>>,
    Cur,
    Out,
) {
    if next_is_token(items, cur, NonBracketTokenKind::Identifier) && span_text(
        text,
        cnode_location(items[cur.index as int]),
    ) == "to"@ {
        let c = commit(items, cur, out, IsographSemanticToken::Keyword);
        let t = s_type_annotation(items, c.0, c.1, text);
        match t.0 {
            Err(e) => (Err(e), t.1, t.2),
            Ok(target) => (Ok(Some(target)), t.1, t.2),
        }
    } else {
        (Ok(None), cur, out)
    }
}

/// Reading a description when the next item is a string or a block string; nothing otherwise.
pub open spec fn s_description(items: Seq<ChunkNode>, cur: Cur, out: Out, text: &str) -> (
    Option<WithSpan<Seq<char>>>,
    Cur,
    Out,
) {
    if next_is_token(items, cur, NonBracketTokenKind::StringLiteral) {
        let location = cnode_location(items[cur.index as int]);
        let c = commit(items, cur, out, IsographSemanticToken::String);
        (Some(WithSpan { item: strip(span_text(text, location), 1), location }), c.0, c.1)
    } else if next_is_token(items, cur, NonBracketTokenKind::BlockStringLiteral) {
        let location = cnode_location(items[cur.index as int]);
        let c = commit(items, cur, out, IsographSemanticToken::String);
        (
            Some(
                WithSpan {
                    item: spec_clean_block_string(strip(span_text(text, location), 3)),
                    location,
                },
            ),
            c.0,
            c.1,
        )
    } else {
        (None, cur, out)
    }
}

/// Reading a field declaration after its keyword.
pub open spec fn s_selectable(items: Seq<ChunkNode>, cur: Cur, out: Out, text: &str) -> (
    Result<ItemView, WithSpan<ParseError>>,
    Cur,
    Out,
) {
    let t = s_type_dot_name(items, cur, out, text);
    match t.0 {
        Err(e) => (Err(e), t.1, t.2),
        Ok(names) => {
            let v = s_declaration_list(items, t.1, t.2, text);
            let g = s_to_target(items, v.1, v.2, text);
            match g.0 {
                Err(e) => (Err(e), g.1, g.2),
                Ok(target_type) => {
                    let d = s_directives(items, g.1, g.2, text);
                    match d.0 {
                        Err(e) => (Err(e), d.1, d.2),
                        Ok(directive_set) => {
                            let ds = s_description(items, d.1, d.2, text);
                            let s = s_selection_set(items, ds.1, ds.2, text);
                            (
                                Ok(
                                    ItemView::Selectable {
                                        parent_type: names.0,
                                        name: names.1,
                                        variable_definitions: v.0,
                                        target_type,
                                        directive_set,
                                        description: ds.0,
                                        selection_set: s.0,
                                    },
                                ),
                                s.1,
                                s.2,
                            )
                        },
                    }
                },
            }
        },
    }
}

/// Reading a declaration: `entrypoint` or `field`, then the rest of it.
pub open spec fn s_iso_item(items: Seq<ChunkNode>, cur: Cur, out: Out, text: &str) -> (
    Result<ItemView, WithSpan<ParseError>>,
    Cur,
    Out,
) {
    let k = s_require(
        items,
        cur,
        out,
        NonBracketTokenKind::Identifier,
        IsographSemanticToken::Keyword,
        Expectation::DeclarationKeyword,
    );
    match k.0 {
        Err(e) => (Err(e), k.1, k.2),
        Ok(keyword) => {
            let word = span_text(text, keyword);
            if word == "entrypoint"@ {
                s_entrypoint(items, k.1, k.2, text)
            } else if word == "field"@ {
                s_selectable(items, k.1, k.2, text)
            } else {
                (
                    Err(
                        WithSpan {
                            item: ParseError::Expected(
                                ExpectedFound {
                                    expected: Expectation::DeclarationKeyword,
                                    found: Found::Token(NonBracketTokenKind::Identifier),
                                },
                            ),
                            location: keyword,
                        },
                    ),
                    k.1,
                    k.2,
                )
            }
        },
    }
}

/// The parse of a literal's chunks: nothing, and an error, when it has none; otherwise its first
/// chunk's slot, its boundary comma an error it leaves unread, with every chunk after it an
/// error that gets its leftover roles.
pub open spec fn s_literal(cs: Seq<ChunkView>, location: Span, out: Out, text: &str) -> (
    Option<WithSpan<LiteralView>>,
    Out,
) {
    if cs.len() == 0 {
        (None, report(out, WithSpan { item: ParseError::EmptyLiteral, location }))
    } else {
        let items = cs[0].contents;
        let cur = start_cur(items);
        let p = s_iso_item(items, cur, out, text);
        let slot = s_slot(
            items,
            spanned(p.0, span_start(items, cur), cur.previous_end, p.1),
            p.1,
            p.2,
            Expectation::EndOfDeclaration,
        );
        let o = s_boundary_comma(cs[0], Expectation::EndOfDeclaration, slot.1);
        let attached = attach_comma(slot.0.item.extra, slot.0.location, cs[0]);
        let item = WithSpan {
            item: SlotView { item: slot.0.item.item, extra: attached.0 },
            location: attached.1,
        };
        if cs.len() > 1 {
            (
                Some(
                    WithSpan {
                        item: LiteralView {
                            item,
                            extra_chunks: Some(
                                WithSpan {
                                    item: cs.skip(1),
                                    location: Span::spec_join(cs[1].location, cs.last().location),
                                },
                            ),
                        },
                        location,
                    },
                ),
                fill_chunks_from(
                    cs,
                    1,
                    report(o, WithSpan { item: ParseError::MultipleDeclarations, location: cs[1].location }),
                ),
            )
        } else {
            (Some(WithSpan { item: LiteralView { item, extra_chunks: None }, location }), o)
        }
    }
}

/// Reads `Type.name`.
fn parse_type_dot_name(cursor: &mut ItemCursor, out: &mut ParseOutput, text: &str) -> (r: Result<
    (WithSpan<EntityNameWrapper>, WithSpan<SelectableNameWrapper>),
    WithSpan<ParseError>,
>)
    requires
        old(cursor).wf(),
        nodes_in_text(text, old(cursor).nodes()),
    ensures
        r matches Err(e) ==> e.item != ParseError::EmptyLiteral,
        only_appends(old(out).view(), final(out).view()),
        adds_no_empty_literal(old(out).view(), final(out).view()),
        final(cursor).items == old(cursor).items,
        final(cursor).wf(),
        (
            match r {
                Ok(p) => Ok(
                    (
                        WithSpan { item: p.0.item.0@, location: p.0.location },
                        WithSpan { item: p.1.item.0@, location: p.1.location },
                    ),
                ),
                Err(e) => Err(e),
            },
            final(cursor).cur(),
            final(out).view(),
        ) == s_type_dot_name(old(cursor).nodes(), old(cursor).cur(), old(out).view(), text),
{
    let ghost i = cursor.index();
    let parent_type = cursor.require_token(
        out,
        NonBracketTokenKind::Identifier,
        IsographSemanticToken::Type,
        Expectation::Token(NonBracketTokenKind::Identifier),
    )?;
    proof {
        lemma_token_in_text(text, old(cursor).nodes(), i as int);
    }
    cursor.require_token(
        out,
        NonBracketTokenKind::Period,
        IsographSemanticToken::Period,
        Expectation::Token(NonBracketTokenKind::Period),
    )?;
    let ghost k = cursor.index();
    let name = cursor.require_token(
        out,
        NonBracketTokenKind::Identifier,
        IsographSemanticToken::FieldName,
        Expectation::Token(NonBracketTokenKind::Identifier),
    )?;
    proof {
        lemma_token_in_text(text, old(cursor).nodes(), k as int);
    }
    Ok(
        (
            WithSpan { item: EntityNameWrapper(token_text(text, parent_type)), location: parent_type },
            WithSpan { item: SelectableNameWrapper(token_text(text, name)), location: name },
        ),
    )
}

/// Reads an entrypoint after its keyword.
fn parse_entrypoint(cursor: &mut ItemCursor, out: &mut ParseOutput, text: &str) -> (r: Result<
    EntrypointDeclaration,
    WithSpan<ParseError>,
>)
    requires
        old(cursor).wf(),
        nodes_in_text(text, old(cursor).nodes()),
    ensures
        r matches Err(e) ==> e.item != ParseError::EmptyLiteral,
        only_appends(old(out).view(), final(out).view()),
        adds_no_empty_literal(old(out).view(), final(out).view()),
        final(cursor).items == old(cursor).items,
        final(cursor).wf(),
        (
            match r {
                Ok(e) => Ok(item_view(IsoLiteralItem::Entrypoint(e))),
                Err(e) => Err(e),
            },
            final(cursor).cur(),
            final(out).view(),
        ) == s_entrypoint(old(cursor).nodes(), old(cursor).cur(), old(out).view(), text),
{
    let (parent_type, name) = parse_type_dot_name(cursor, out, text)?;
    let directive_set = consume_directives(cursor, out, text)?;
    Ok(EntrypointDeclaration { parent_type, name, directive_set })
}

/// Reads `to Type` when the next item is the identifier `to`.
fn consume_to_target(cursor: &mut ItemCursor, out: &mut ParseOutput, text: &str) -> (r: Result<
    Option<WithSpan<TypeAnnotation>>,
    WithSpan<ParseError>,
>)
    requires
        old(cursor).wf(),
        nodes_in_text(text, old(cursor).nodes()),
    ensures
        r matches Err(e) ==> e.item != ParseError::EmptyLiteral,
        only_appends(old(out).view(), final(out).view()),
        adds_no_empty_literal(old(out).view(), final(out).view()),
        final(cursor).items == old(cursor).items,
        final(cursor).wf(),
        (
            match r {
                Ok(t) => Ok(
                    match t {
                        Some(w) => Some(crate::variables::spanned_type_view(w)),
                        None => None,
                    },
                ),
                Err(e) => Err(e),
            },
            final(cursor).cur(),
            final(out).view(),
        ) == s_to_target(old(cursor).nodes(), old(cursor).cur(), old(out).view(), text),
{
    if !cursor.at_token(NonBracketTokenKind::Identifier) {
        return Ok(None);
    }
    let ghost i = cursor.index();
    proof {
        lemma_token_in_text(text, old(cursor).nodes(), i as int);
        reveal_strlit("to");
    }
    let location = match cursor.peek() {
        Some(item) => item.location,
        None => {
            return Ok(None);
        },
    };
    let word = token_text(text, location);
    if !text_is(word.as_str(), "to") {
        return Ok(None);
    }
    cursor.commit(out, IsographSemanticToken::Keyword);
    let target_type = parse_type_annotation(cursor, out, text)?;
    Ok(Some(target_type))
}

/// Reads a description when the next item is a string or a block string.
pub fn consume_description(cursor: &mut ItemCursor, out: &mut ParseOutput, text: &str) -> (r: Option<
    WithSpan<Description>,
>)
    requires
        old(cursor).wf(),
        nodes_in_text(text, old(cursor).nodes()),
    ensures
        only_appends(old(out).view(), final(out).view()),
        adds_no_empty_literal(old(out).view(), final(out).view()),
        final(cursor).items == old(cursor).items,
        final(cursor).wf(),
        (
            match r {
                Some(d) => Some(WithSpan { item: d.item.0@, location: d.location }),
                None => None,
            },
            final(cursor).cur(),
            final(out).view(),
        ) == s_description(old(cursor).nodes(), old(cursor).cur(), old(out).view(), text),
{
    let ghost i = cursor.index();
    if let Some(location) = cursor.consume_token_if(
        out,
        NonBracketTokenKind::StringLiteral,
        IsographSemanticToken::String,
    ) {
        proof {
            lemma_token_in_text(text, old(cursor).nodes(), i as int);
        }
        return Some(WithSpan { item: Description(token_interior(text, location, 1)), location });
    }
    if let Some(location) = cursor.consume_token_if(
        out,
        NonBracketTokenKind::BlockStringLiteral,
        IsographSemanticToken::String,
    ) {
        proof {
            lemma_token_in_text(text, old(cursor).nodes(), i as int);
        }
        let interior = token_interior(text, location, 3);
        return Some(WithSpan { item: Description(clean_block_string(interior.as_str())), location });
    }
    None
}

/// Reads a field declaration after its keyword.
fn parse_selectable_declaration(cursor: &mut ItemCursor, out: &mut ParseOutput, text: &str) -> (r:
    Result<SelectableDeclaration, WithSpan<ParseError>>)
    requires
        old(cursor).wf(),
        nodes_in_text(text, old(cursor).nodes()),
    ensures
        r matches Err(e) ==> e.item != ParseError::EmptyLiteral,
        only_appends(old(out).view(), final(out).view()),
        adds_no_empty_literal(old(out).view(), final(out).view()),
        final(cursor).items == old(cursor).items,
        final(cursor).wf(),
        (
            match r {
                Ok(s) => Ok(item_view(IsoLiteralItem::Selectable(s))),
                Err(e) => Err(e),
            },
            final(cursor).cur(),
            final(out).view(),
        ) == s_selectable(old(cursor).nodes(), old(cursor).cur(), old(out).view(), text),
{
    let (parent_type, name) = parse_type_dot_name(cursor, out, text)?;
    let variable_definitions = consume_variable_declaration_list(cursor, out, text);
    let target_type = consume_to_target(cursor, out, text)?;
    let directive_set = consume_directives(cursor, out, text)?;
    let description = consume_description(cursor, out, text);
    let selection_set = consume_selection_set(cursor, out, text);
    Ok(
        SelectableDeclaration {
            parent_type,
            name,
            variable_definitions,
            target_type,
            directive_set,
            description,
            selection_set,
        },
    )
}

/// Reads a declaration.
fn parse_iso_literal_item(cursor: &mut ItemCursor, out: &mut ParseOutput, text: &str) -> (r: Result<
    IsoLiteralItem,
    WithSpan<ParseError>,
>)
    requires
        old(cursor).wf(),
        nodes_in_text(text, old(cursor).nodes()),
    ensures
        r matches Err(e) ==> e.item != ParseError::EmptyLiteral,
        only_appends(old(out).view(), final(out).view()),
        adds_no_empty_literal(old(out).view(), final(out).view()),
        final(cursor).items == old(cursor).items,
        final(cursor).wf(),
        (
            match r {
                Ok(i) => Ok(item_view(i)),
                Err(e) => Err(e),
            },
            final(cursor).cur(),
            final(out).view(),
        ) == s_iso_item(old(cursor).nodes(), old(cursor).cur(), old(out).view(), text),
{
    let ghost i = cursor.index();
    let keyword = cursor.require_token(
        out,
        NonBracketTokenKind::Identifier,
        IsographSemanticToken::Keyword,
        Expectation::DeclarationKeyword,
    )?;
    proof {
        lemma_token_in_text(text, old(cursor).nodes(), i as int);
        reveal_strlit("entrypoint");
        reveal_strlit("field");
    }
    let word = token_text(text, keyword);
    if text_is(word.as_str(), "entrypoint") {
        Ok(IsoLiteralItem::Entrypoint(parse_entrypoint(cursor, out, text)?))
    } else if text_is(word.as_str(), "field") {
        Ok(IsoLiteralItem::Selectable(parse_selectable_declaration(cursor, out, text)?))
    } else {
        Err(
            WithSpan {
                item: ParseError::expected(
                    Expectation::DeclarationKeyword,
                    Found::Token(NonBracketTokenKind::Identifier),
                ),
                location: keyword,
            },
        )
    }
}

/// Copies of a level's chunks from the second on.
fn copy_extra_chunks(chunks: &Vec<WithSpan<Chunk>>) -> (r: nonempty::NonEmpty<WithSpan<Chunk>>)
    requires
        chunks.len() > 1,
    ensures
        chunk_views_of(chunks_held(r)) == chunk_views_of(chunks@).skip(1),
{
    let ghost cs = chunk_views_of(chunks@);
    proof {
        lemma_chunk_views_of_len(chunks@);
    }
    let mut rest = new_chunks(copy_chunk(&chunks[1]));
    proof {
        lemma_chunk_views_of_len(chunks_held(rest));
        assert(chunk_views_of(chunks_held(rest)) =~= cs.subrange(1, 2));
    }
    let mut j: usize = 2;
    while j < chunks.len()
        invariant
            cs == chunk_views_of(chunks@),
            cs.len() == chunks@.len(),
            forall|k: int| 0 <= k < cs.len() ==> #[trigger] cs[k] == chunk_view_of(chunks@[k]),
            2 <= j <= chunks.len(),
            chunk_views_of(chunks_held(rest)) == cs.subrange(1, j as int),
        decreases chunks.len() - j,
    {
        let c = copy_chunk(&chunks[j]);
        let ghost before = chunks_held(rest);
        push_chunk(&mut rest, c);
        proof {
            crate::chunk::lemma_chunk_views_of_push(before, c);
            assert(chunk_views_of(chunks_held(rest)) =~= cs.subrange(1, j + 1));
        }
        j += 1;
    }
    proof {
        assert(cs.subrange(1, cs.len() as int) =~= cs.skip(1));
    }
    rest
}

/// Parses a literal's chunk tree: one declaration in its first chunk.
pub fn parse_chunked_iso_literal(text: &str, root: &WithSpan<ChunkedLevel>, out: &mut ParseOutput) -> (r:
    Option<WithSpan<IsoLiteralParse>>)
    requires
        chunks_in_text(text, chunk_views_of(root.item.0@)),
    ensures
        only_appends(old(out).view(), final(out).view()),
        r is Some ==> adds_no_empty_literal(old(out).view(), final(out).view()),
        (literal_view(r), final(out).view()) == s_literal(
            chunk_views_of(root.item.0@),
            root.location,
            old(out).view(),
            text,
        ),
{
    let ghost cs = chunk_views_of(root.item.0@);
    proof {
        lemma_chunk_views_of_len(root.item.0@);
    }
    let location = root.location;
    if root.item.0.len() == 0 {
        out.report_error(WithSpan { item: ParseError::EmptyLiteral, location });
        return None;
    }
    proof {
        lemma_chunk_in_text(text, cs, 0);
    }
    let chunk = &root.item.0[0];
    let mut cursor = ItemCursor::new(&chunk.item.contents);
    let start = cursor.span_start();
    let before = cursor.previous_end;
    let parsed = match parse_iso_literal_item(&mut cursor, out, text) {
        Ok(item) => Ok(WithSpan { item, location: cursor.span_since(start, before) }),
        Err(e) => Err(e),
    };
    let (extra, slot_location) = finish_chunk(
        &cursor,
        match &parsed {
            Ok(w) => Ok(w.location),
            Err(e) => Err(*e),
        },
        Expectation::EndOfDeclaration,
        out,
    );
    report_boundary_comma(chunk, Expectation::EndOfDeclaration, out);
    let (extra, slot_location) = attach_boundary_comma(chunk, extra, slot_location);
    let slot = WithSpan {
        item: Slot {
            item: match parsed {
                Ok(w) => Some(w),
                Err(_) => None,
            },
            extra,
        },
        location: slot_location,
    };
    let extra_chunks = if root.item.0.len() > 1 {
        out.report_error(
            WithSpan { item: ParseError::MultipleDeclarations, location: root.item.0[1].location },
        );
        fill_chunks_from_index(&root.item.0, 1, out);
        let rest = copy_extra_chunks(&root.item.0);
        let last = root.item.0.len() - 1;
        let extra_location = Span::join(root.item.0[1].location, root.item.0[last].location);
        proof {
            lemma_chunk_views_of_len(root.item.0@);
            assert(cs[1].location == root.item.0@[1].location);
            assert(cs.last().location == root.item.0@[last as int].location);
            assert(cs.skip(1).last() == cs.last());
        }
        Some(WithSpan { item: ExtraChunks(rest), location: extra_location })
    } else {
        None
    };
    Some(WithSpan { item: Singleton { item: slot, extra_chunks }, location })
}

/// A bracket error as an error of the literal, at its bracket.
pub open spec fn bracket_error_at(e: BracketError) -> WithSpan<IsoLiteralError> {
    WithSpan {
        item: IsoLiteralError::Bracket(e),
        location: match e {
            BracketError::UnmatchedOpen(open) => open.location,
            BracketError::UnmatchedClose(close) => close.location,
        },
    }
}

/// A comma error as an error of the literal, at its comma.
pub open spec fn comma_error_at(e: CommaWithoutItem) -> WithSpan<IsoLiteralError> {
    WithSpan { item: IsoLiteralError::Comma(e), location: e.0 }
}

/// A grammar error as an error of the literal.
pub open spec fn ast_error_at(e: WithSpan<ParseError>) -> WithSpan<IsoLiteralError> {
    WithSpan { item: IsoLiteralError::Ast(e.item), location: e.location }
}

/// The chunk tree of a literal's tokens.
pub open spec fn spec_tree(tokens: Seq<WithSpan<IsographLangTokenKind>>) -> Seq<ChunkView> {
    chunks_from(spec_root(tokens), 0).0
}

/// The parse of a literal's tokens, and its output, from nothing recorded.
pub open spec fn spec_parse(text: &str, tokens: Seq<WithSpan<IsographLangTokenKind>>) -> (
    Option<WithSpan<LiteralView>>,
    Out,
) {
    s_literal(
        spec_tree(tokens),
        Span { start: 0, end: text.len() as u32 },
        Out { tokens: seq![], errors: seq![] },
        text,
    )
}

/// The errors of a literal: its brackets', then its commas', then those of its grammar.
pub open spec fn spec_literal_errors(
    tokens: Seq<WithSpan<IsographLangTokenKind>>,
    grammar: Seq<WithSpan<ParseError>>,
) -> Seq<WithSpan<IsoLiteralError>> {
    crate::matched_brackets::spec_bracket_errors(tokens).map_values(|e: BracketError| bracket_error_at(e))
        + chunks_from(spec_root(tokens), 0).1.map_values(|e: CommaWithoutItem| comma_error_at(e))
        + grammar.map_values(|e: WithSpan<ParseError>| ast_error_at(e))
}

/// Parses a literal from its tokens, as the lexer gives them for `text`: matches its brackets,
/// chunks it, and reads one declaration.
pub fn parse_iso_literal(text: &str, tokens: Vec<WithSpan<IsographLangTokenKind>>) -> (r:
    ParsedIsoLiteral)
    requires
        tokens_fit(text, tokens@),
    ensures
        literal_view(r.item) == spec_parse(text, tokens@).0,
        r.tokens@ == spec_parse(text, tokens@).1.tokens,
        r.errors@ == spec_literal_errors(tokens@, spec_parse(text, tokens@).1.errors),
        r.item is None <==> exists|i: int|
            0 <= i < r.errors@.len() && #[trigger] r.errors@[i].item == IsoLiteralError::Ast(
                ParseError::EmptyLiteral,
            ),
        r.item matches Some(w) ==> w.location == (Span { start: 0, end: text.len() as u32 }),
{
    let ghost token_view = tokens@;
    let length = #[verifier::truncate] (text.len() as u32);
    let (brackets, bracket_errors) = match_brackets(tokens, length);
    let (tree, comma_errors) = chunk(&brackets);
    let mut errors: Vec<WithSpan<IsoLiteralError>> = Vec::new();
    let mut i: usize = 0;
    while i < bracket_errors.len()
        invariant
            i <= bracket_errors.len(),
            errors@ == bracket_errors@.subrange(0, i as int).map_values(
                |e: BracketError| bracket_error_at(e),
            ),
        decreases bracket_errors.len() - i,
    {
        let e = bracket_errors[i];
        errors.push(WithSpan { item: IsoLiteralError::Bracket(e), location: e.location() });
        proof {
            assert(bracket_errors@.subrange(0, i + 1) =~= bracket_errors@.subrange(0, i as int).push(e));
            assert(errors@ =~= bracket_errors@.subrange(0, i + 1).map_values(
                |e: BracketError| bracket_error_at(e),
            ));
        }
        i += 1;
    }
    let ghost after_brackets = errors@;
    let mut j: usize = 0;
    while j < comma_errors.len()
        invariant
            j <= comma_errors.len(),
            errors@ == after_brackets + comma_errors@.subrange(0, j as int).map_values(
                |e: CommaWithoutItem| comma_error_at(e),
            ),
        decreases comma_errors.len() - j,
    {
        let e = comma_errors[j];
        errors.push(WithSpan { item: IsoLiteralError::Comma(e), location: e.0 });
        proof {
            assert(comma_errors@.subrange(0, j + 1) =~= comma_errors@.subrange(0, j as int).push(e));
            assert(errors@ =~= after_brackets + comma_errors@.subrange(0, j + 1).map_values(
                |e: CommaWithoutItem| comma_error_at(e),
            ));
        }
        j += 1;
    }
    let ghost after_commas = errors@;
    let mut out = ParseOutput { tokens: Vec::new(), errors: Vec::new() };
    proof {
        law_chunk_tree_tokens_fit(text, token_view);
    }
    let item = parse_chunked_iso_literal(text, &tree, &mut out);
    let mut k: usize = 0;
    while k < out.errors.len()
        invariant
            k <= out.errors.len(),
            errors@ == after_commas + out.errors@.subrange(0, k as int).map_values(
                |e: WithSpan<ParseError>| ast_error_at(e),
            ),
        decreases out.errors.len() - k,
    {
        let e = out.errors[k];
        errors.push(WithSpan { item: IsoLiteralError::Ast(e.item), location: e.location });
        proof {
            assert(out.errors@.subrange(0, k + 1) =~= out.errors@.subrange(0, k as int).push(e));
            assert(errors@ =~= after_commas + out.errors@.subrange(0, k + 1).map_values(
                |e: WithSpan<ParseError>| ast_error_at(e),
            ));
        }
        k += 1;
    }
    proof {
        assert(bracket_errors@.subrange(0, bracket_errors@.len() as int) =~= bracket_errors@);
        assert(comma_errors@.subrange(0, comma_errors@.len() as int) =~= comma_errors@);
        assert(out.errors@.subrange(0, out.errors@.len() as int) =~= out.errors@);
        let grammar = out.errors@;
        let before = after_commas;
        assert(errors@ == before + grammar.map_values(|e: WithSpan<ParseError>| ast_error_at(e)));
        assert forall|i: int| 0 <= i < before.len() implies !(#[trigger] before[i].item is Ast) by {
            let nb = bracket_errors@.len() as int;
            if i < nb {
                assert(before[i] == bracket_error_at(bracket_errors@[i]));
            } else {
                assert(before[i] == comma_error_at(comma_errors@[i - nb]));
            }
        }
        if item is None {
            law_empty_literal_has_no_parse(spec_tree(token_view), tree.location, Out { tokens: seq![], errors: seq![] }, text);
            assert(grammar.len() == 1 && grammar[0].item == ParseError::EmptyLiteral);
            assert(errors@[before.len() as int] == ast_error_at(grammar[0]));
            assert(errors@[before.len() as int].item == IsoLiteralError::Ast(ParseError::EmptyLiteral));
        } else {
            assert forall|i: int| 0 <= i < errors@.len() implies #[trigger] errors@[i].item != IsoLiteralError::Ast(
                ParseError::EmptyLiteral,
            ) by {
                if i >= before.len() {
                    assert(errors@[i] == ast_error_at(grammar[i - before.len()]));
                    assert(grammar[i - before.len()].item != ParseError::EmptyLiteral);
                } else {
                    assert(errors@[i] == before[i]);
                }
            }
        }
    }
    ParsedIsoLiteral { item, errors, tokens: out.tokens }
}


/// A literal without chunks has no parse and is reported empty, at its span; a literal with
/// chunks always has a parse.
pub proof fn law_empty_literal_has_no_parse(cs: Seq<ChunkView>, location: Span, out: Out, text: &str)
    ensures
        (s_literal(cs, location, out, text).0 is None) <==> cs.len() == 0,
        cs.len() == 0 ==> s_literal(cs, location, out, text).1.errors == out.errors.push(
            WithSpan { item: ParseError::EmptyLiteral, location },
        ),
{
}

/// A literal holds one declaration: every chunk after its first is kept as its extra chunks,
/// and reported, once, at the first of them.
pub proof fn law_extra_chunks_are_multiple_declarations(
    cs: Seq<ChunkView>,
    location: Span,
    out: Out,
    text: &str,
)
    requires
        cs.len() > 1,
    ensures
        s_literal(cs, location, out, text).1.errors.contains(
            WithSpan { item: ParseError::MultipleDeclarations, location: cs[1].location },
        ),
        s_literal(cs, location, out, text).0 matches Some(l) && l.item.extra_chunks == Some(
            WithSpan {
                item: cs.skip(1),
                location: Span::spec_join(cs[1].location, cs.last().location),
            },
        ),
{
    let items = cs[0].contents;
    let cur = start_cur(items);
    let p = s_iso_item(items, cur, out, text);
    let slot = s_slot(
        items,
        spanned(p.0, span_start(items, cur), cur.previous_end, p.1),
        p.1,
        p.2,
        Expectation::EndOfDeclaration,
    );
    let o = s_boundary_comma(cs[0], Expectation::EndOfDeclaration, slot.1);
    let reported = report(o, WithSpan { item: ParseError::MultipleDeclarations, location: cs[1].location });
    crate::slot::lemma_fill_chunks_keep_errors(cs, 1, reported);
    assert(reported.errors.last() == WithSpan { item: ParseError::MultipleDeclarations, location: cs[1].location });
    assert(reported.errors.contains(WithSpan { item: ParseError::MultipleDeclarations, location: cs[1].location }));
}

} // verus!
