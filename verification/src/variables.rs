use vstd::prelude::*;

use crate::arguments::{
    lemma_chunk_in_text, lemma_group_in_text, lemma_token_in_text, name_of,
    parse_non_constant_value, parse_variable_name, s_value, s_variable_name, spanned_value_view,
    variable_view, NonConstantValue, ValueView, VariableDeclarationOrUsage,
};
use crate::chunk::{
    chunk_view_of, chunk_views_of, found_of, lemma_chunk_views_of_len, ChunkContentItem,
    ChunkNode, ChunkView, ChunkedLevel,
};
use crate::chunk_stream::{
    advance, cnode_found, cnode_location, commit, expected_here, next_is_group, next_is_token,
    record, report, s_require, span_start, start_cur, Cur, ItemCursor, Out, ParseOutput, adds_no_empty_literal, only_appends,
};
use crate::leftover::{
    chunks_size, fill_chunks_from, fill_chunks_from_index, lemma_chunks_size_elem,
    lemma_nodes_size_elem, nodes_size,
};
use crate::non_bracket_token::{BracketKind, NonBracketTokenKind};
use crate::parse_error::{Expectation, ExpectedFound, Found, ParseError};
use crate::parse_iso_literal::EntityNameWrapper;
use crate::semantic_token::IsographSemanticToken;
use crate::slot::{
    attach_boundary_comma, attach_comma, chunks_in_text, finish_chunk, nodes_in_text,
    report_boundary_comma, s_boundary_comma, s_slot,
    spanned, token_text, unparsed_view, Slot, SlotView, UnparsedChunkItems,
};
use crate::span::{Span, WithOptionalSpan, WithSpan};

verus! {

/// The variable declarations of a field, one slot per chunk.
#[derive(Debug, PartialEq, Eq)]
pub struct VariableDeclarationList(pub Vec<WithSpan<Slot<VariableDeclaration, UnparsedChunkItems>>>);

/// `$name: Type = default`, the default optional.
#[derive(Debug, PartialEq, Eq)]
pub struct VariableDeclaration {
    pub name: WithSpan<VariableDeclarationOrUsage>,
    pub type_: WithSpan<TypeAnnotation>,
    pub default_value: Option<WithSpan<NonConstantValue>>,
}

/// A type: `Name!` and `[T]!` are themselves; without the `!`, the type or null.
#[derive(Debug, PartialEq, Eq)]
pub enum TypeAnnotation {
    Named(NamedTypeAnnotation),
    List(Box<ListTypeAnnotation>),
    Union(UnionTypeAnnotation),
}

/// A choice of types, each with the span it was written at, if it was written.
#[derive(Debug, PartialEq, Eq)]
pub struct UnionTypeAnnotation(pub Vec<WithOptionalSpan<UnionVariant>>);

#[derive(Debug, PartialEq, Eq)]
pub enum UnionVariant {
    Named(NamedTypeAnnotation),
    List(Box<ListTypeAnnotation>),
    Null(NullTypeAnnotation),
}

/// The null a nullable type admits.
#[derive(Copy, Clone, Debug, PartialEq, Eq, Structural)]
pub struct NullTypeAnnotation;

#[derive(Debug, PartialEq, Eq)]
pub struct NamedTypeAnnotation {
    pub name: WithSpan<EntityNameWrapper>,
}

/// `[T]`: its element type when it parsed, and the items of its chunk it left unread.
#[derive(Debug, PartialEq, Eq)]
pub struct ListTypeAnnotation {
    pub inner: Option<WithSpan<TypeAnnotation>>,
    pub extra: Option<WithSpan<UnparsedChunkItems>>,
}

/// The abstract value of a type.
pub enum TypeView {
    Named(WithSpan<Seq<char>>),
    List(Box<ListTypeView>),
    Union(Seq<WithOptionalSpan<VariantView>>),
}

/// The abstract value of a type a union admits.
pub enum VariantView {
    Named(WithSpan<Seq<char>>),
    List(Box<ListTypeView>),
    Null,
}

/// The abstract value of a list type.
pub struct ListTypeView {
    pub inner: Option<WithSpan<TypeView>>,
    pub extra: Option<WithSpan<Seq<ChunkNode>>>,
}

/// The abstract value of a variable declaration.
pub struct VariableDeclarationView {
    pub name: WithSpan<WithSpan<Seq<char>>>,
    pub type_: WithSpan<TypeView>,
    pub default_value: Option<WithSpan<ValueView>>,
}

/// A named or list type, before the `!` decides what it is.
pub enum NamedOrListView {
    Named(WithSpan<Seq<char>>),
    List(ListTypeView),
}

pub open spec fn named_view(n: NamedTypeAnnotation) -> WithSpan<Seq<char>> {
    WithSpan { item: n.name.item.0@, location: n.name.location }
}

pub open spec fn type_view(t: TypeAnnotation) -> TypeView
    decreases t,
{
    match t {
        TypeAnnotation::Named(n) => TypeView::Named(named_view(n)),
        TypeAnnotation::List(l) => TypeView::List(Box::new(list_type_view(*l))),
        TypeAnnotation::Union(u) => TypeView::Union(variants_view(u.0@)),
    }
}

pub open spec fn list_type_view(l: ListTypeAnnotation) -> ListTypeView
    decreases l,
{
    ListTypeView {
        inner: match l.inner {
            Some(w) => Some(WithSpan { item: type_view(w.item), location: w.location }),
            None => None,
        },
        extra: unparsed_view(l.extra),
    }
}

pub open spec fn variant_view(v: WithOptionalSpan<UnionVariant>) -> WithOptionalSpan<VariantView>
    decreases v,
{
    WithOptionalSpan {
        item: match v.item {
            UnionVariant::Named(n) => VariantView::Named(named_view(n)),
            UnionVariant::List(l) => VariantView::List(Box::new(list_type_view(*l))),
            UnionVariant::Null(_) => VariantView::Null,
        },
        location: v.location,
    }
}

pub open spec fn variants_view(s: Seq<WithOptionalSpan<UnionVariant>>) -> Seq<
    WithOptionalSpan<VariantView>,
>
    decreases s,
{
    if s.len() == 0 {
        seq![]
    } else {
        variants_view(s.subrange(0, s.len() - 1)).push(variant_view(s[s.len() - 1]))
    }
}

pub open spec fn spanned_type_view(t: WithSpan<TypeAnnotation>) -> WithSpan<TypeView> {
    WithSpan { item: type_view(t.item), location: t.location }
}

pub open spec fn declaration_view(d: VariableDeclaration) -> VariableDeclarationView {
    VariableDeclarationView {
        name: variable_view(d.name),
        type_: spanned_type_view(d.type_),
        default_value: match d.default_value {
            Some(v) => Some(spanned_value_view(v)),
            None => None,
        },
    }
}

pub open spec fn declaration_slot_view(s: WithSpan<Slot<VariableDeclaration, UnparsedChunkItems>>) -> WithSpan<
    SlotView<VariableDeclarationView>,
> {
    WithSpan {
        item: SlotView {
            item: match s.item.item {
                Some(w) => Some(WithSpan { item: declaration_view(w.item), location: w.location }),
                None => None,
            },
            extra: unparsed_view(s.item.extra),
        },
        location: s.location,
    }
}

pub open spec fn declaration_slots_view(s: Seq<WithSpan<Slot<VariableDeclaration, UnparsedChunkItems>>>) -> Seq<
    WithSpan<SlotView<VariableDeclarationView>>,
>
    decreases s.len(),
{
    if s.len() == 0 {
        seq![]
    } else {
        declaration_slots_view(s.subrange(0, s.len() - 1)).push(declaration_slot_view(s[s.len() - 1]))
    }
}

/// The abstract value of an optional variable declaration list.
pub open spec fn declaration_list_view(l: Option<WithSpan<VariableDeclarationList>>) -> Option<
    WithSpan<Seq<WithSpan<SlotView<VariableDeclarationView>>>>,
> {
    match l {
        Some(w) => Some(WithSpan { item: declaration_slots_view(w.item.0@), location: w.location }),
        None => None,
    }
}

pub open spec fn type_result_view(r: Result<WithSpan<TypeAnnotation>, WithSpan<ParseError>>) -> Result<
    WithSpan<TypeView>,
    WithSpan<ParseError>,
> {
    match r {
        Ok(t) => Ok(spanned_type_view(t)),
        Err(e) => Err(e),
    }
}

proof fn lemma_declaration_slots_push(
    s: Seq<WithSpan<Slot<VariableDeclaration, UnparsedChunkItems>>>,
    x: WithSpan<Slot<VariableDeclaration, UnparsedChunkItems>>,
)
    ensures
        declaration_slots_view(s.push(x)) == declaration_slots_view(s).push(declaration_slot_view(x)),
{
    assert(s.push(x).subrange(0, s.len() as int) =~= s);
}

/// A named or list type as a type of its own.
pub open spec fn as_type(core: NamedOrListView) -> TypeView {
    match core {
        NamedOrListView::Named(n) => TypeView::Named(n),
        NamedOrListView::List(l) => TypeView::List(Box::new(l)),
    }
}

/// A named or list type as one a union admits.
pub open spec fn as_variant(core: NamedOrListView) -> VariantView {
    match core {
        NamedOrListView::Named(n) => VariantView::Named(n),
        NamedOrListView::List(l) => VariantView::List(Box::new(l)),
    }
}

/// Reading a type: a named or list type, which is itself when `!` follows (the `!` gets no
/// role), and otherwise is nullable: a union of it, at its span, and null, written nowhere.
pub open spec fn s_type_annotation(items: Seq<ChunkNode>, cur: Cur, out: Out, text: &str) -> (
    Result<WithSpan<TypeView>, WithSpan<ParseError>>,
    Cur,
    Out,
)
    decreases nodes_size(items), 3nat, 0nat,
{
    let core = s_named_or_list(items, cur, out, text);
    match core.0 {
        Err(e) => (Err(e), core.1, core.2),
        Ok(w) => if next_is_token(items, core.1, NonBracketTokenKind::Exclamation) {
            (Ok(WithSpan { item: as_type(w.item), location: w.location }), advance(items, core.1), core.2)
        } else {
            (
                Ok(
                    WithSpan {
                        item: TypeView::Union(
                            seq![
                                WithOptionalSpan { item: as_variant(w.item), location: Some(w.location) },
                                WithOptionalSpan { item: VariantView::Null, location: None },
                            ],
                        ),
                        location: w.location,
                    },
                ),
                core.1,
                core.2,
            )
        },
    }
}

/// A type read with a trailing `!` is its core made non-null, and the `!` is the only item read
/// after the core, with no semantic token recorded for it; without one, the type is the union
/// of its core (at the core's span) and null (without a span), and nothing is read after the
/// core. A core that fails to parse is the type's failure.
pub proof fn law_trailing_bang_is_non_null(items: Seq<ChunkNode>, cur: Cur, out: Out, text: &str)
    ensures
        ({
            let core = s_named_or_list(items, cur, out, text);
            let r = s_type_annotation(items, cur, out, text);
            &&& r.2 == core.2
            &&& core.0 matches Err(e) ==> r.0 == Err::<WithSpan<TypeView>, WithSpan<ParseError>>(e) && r.1 == core.1
            &&& core.0 matches Ok(w) ==> if next_is_token(items, core.1, NonBracketTokenKind::Exclamation) {
                &&& r.0 == Ok::<WithSpan<TypeView>, WithSpan<ParseError>>(WithSpan { item: as_type(w.item), location: w.location })
                &&& r.1 == advance(items, core.1)
            } else {
                &&& r.0 == Ok::<WithSpan<TypeView>, WithSpan<ParseError>>(
                    WithSpan {
                        item: TypeView::Union(
                            seq![
                                WithOptionalSpan { item: as_variant(w.item), location: Some(w.location) },
                                WithOptionalSpan { item: VariantView::Null, location: None },
                            ],
                        ),
                        location: w.location,
                    },
                )
                &&& r.1 == core.1
            }
        }),
{
}

/// Reading a type name, or a bracket group holding a list's element type.
pub open spec fn s_named_or_list(items: Seq<ChunkNode>, cur: Cur, out: Out, text: &str) -> (
    Result<WithSpan<NamedOrListView>, WithSpan<ParseError>>,
    Cur,
    Out,
)
    decreases nodes_size(items), 2nat, 0nat,
{
    let r: (Result<NamedOrListView, WithSpan<ParseError>>, Cur, Out) = if next_is_token(
        items,
        cur,
        NonBracketTokenKind::Identifier,
    ) {
        let c = commit(items, cur, out, IsographSemanticToken::GraphQLTypeName);
        (
            Ok(NamedOrListView::Named(name_of(text, cnode_location(items[cur.index as int])))),
            c.0,
            c.1,
        )
    } else if next_is_group(items, cur, BracketKind::Bracket) {
        let n = items[cur.index as int];
        let c = commit(items, cur, out, IsographSemanticToken::GraphQLTypeName);
        proof {
            lemma_nodes_size_elem(items, cur.index as int);
        }
        let inside = s_bracket_interior(n->children, n->interior, c.1, text);
        (
            match inside.0 {
                Ok(l) => Ok(NamedOrListView::List(l)),
                Err(e) => Err(e),
            },
            c.0,
            record(inside.1, IsographSemanticToken::GraphQLTypeName, n->closing.location),
        )
    } else {
        (Err(expected_here(items, cur, Expectation::TypeAnnotation)), cur, out)
    };
    (spanned(r.0, span_start(items, cur), cur.previous_end, r.1), r.1, r.2)
}

/// Reading a list type's interior: one type in its first chunk. Every other chunk, and the
/// first chunk's comma, is an error and gets its leftover roles; the comma is left unread.
pub open spec fn s_bracket_interior(cs: Seq<ChunkView>, interior: Span, out: Out, text: &str) -> (
    Result<ListTypeView, WithSpan<ParseError>>,
    Out,
)
    decreases chunks_size(cs), 5nat, 0nat,
{
    if cs.len() == 0 {
        (
            Err(
                WithSpan {
                    item: ParseError::Expected(
                        ExpectedFound { expected: Expectation::TypeAnnotation, found: Found::EndOfChunk },
                    ),
                    location: Span { start: interior.end, end: interior.end },
                },
            ),
            out,
        )
    } else {
        proof {
            lemma_chunks_size_elem(cs, 0);
        }
        let items = cs[0].contents;
        let cur = start_cur(items);
        let p = s_type_annotation(items, cur, out, text);
        let slot = s_slot(
            items,
            spanned(p.0, span_start(items, cur), cur.previous_end, p.1),
            p.1,
            p.2,
            Expectation::EndOfType,
        );
        let o1 = s_boundary_comma(cs[0], Expectation::EndOfType, slot.1);
        let o2 = if cs.len() > 1 {
            fill_chunks_from(
                cs,
                1,
                report(
                    o1,
                    WithSpan {
                        item: ParseError::Expected(
                            ExpectedFound {
                                expected: Expectation::EndOfType,
                                found: cnode_found(cs[1].contents[0]),
                            },
                        ),
                        location: cs[1].location,
                    },
                ),
            )
        } else {
            o1
        };
        (
            Ok(
                ListTypeView {
                    inner: match slot.0.item.item {
                        Some(w) => Some(w.item),
                        None => None,
                    },
                    extra: attach_comma(slot.0.item.extra, slot.0.location, cs[0]).0,
                },
            ),
            o2,
        )
    }
}

/// Reading `$name: Type`, then `= value` when an equals sign follows.
pub open spec fn s_declaration(items: Seq<ChunkNode>, cur: Cur, out: Out, text: &str) -> (
    Result<VariableDeclarationView, WithSpan<ParseError>>,
    Cur,
    Out,
) {
    let n = s_variable_name(items, cur, out, text, Expectation::VariableDeclaration);
    match n.0 {
        Err(e) => (Err(e), n.1, n.2),
        Ok(name) => {
            let c = s_require(
                items,
                n.1,
                n.2,
                NonBracketTokenKind::Colon,
                IsographSemanticToken::Colon,
                Expectation::Token(NonBracketTokenKind::Colon),
            );
            match c.0 {
                Err(e) => (Err(e), c.1, c.2),
                Ok(_) => {
                    let t = s_type_annotation(items, c.1, c.2, text);
                    match t.0 {
                        Err(e) => (Err(e), t.1, t.2),
                        Ok(type_) => if next_is_token(items, t.1, NonBracketTokenKind::Equals) {
                            let e = commit(items, t.1, t.2, IsographSemanticToken::Equals);
                            let v = s_value(items, e.0, e.1, text);
                            match v.0 {
                                Err(err) => (Err(err), v.1, v.2),
                                Ok(value) => (
                                    Ok(VariableDeclarationView { name, type_, default_value: Some(value) }),
                                    v.1,
                                    v.2,
                                ),
                            }
                        } else {
                            (Ok(VariableDeclarationView { name, type_, default_value: None }), t.1, t.2)
                        },
                    }
                },
            }
        },
    }
}

/// The slots of a variable declaration list's chunks, from the `j`-th on.
pub open spec fn s_declarations(cs: Seq<ChunkView>, j: int, out: Out, text: &str) -> (
    Seq<WithSpan<SlotView<VariableDeclarationView>>>,
    Out,
)
    decreases cs.len() - j,
{
    if 0 <= j < cs.len() {
        let items = cs[j].contents;
        let cur = start_cur(items);
        let p = s_declaration(items, cur, out, text);
        let slot = s_slot(
            items,
            spanned(p.0, span_start(items, cur), cur.previous_end, p.1),
            p.1,
            p.2,
            Expectation::Separator(BracketKind::Parenthesis),
        );
        let rest = s_declarations(cs, j + 1, slot.1, text);
        (seq![slot.0] + rest.0, rest.1)
    } else {
        (seq![], out)
    }
}

/// Reading a variable declaration list when the next item is a parenthesized group; nothing
/// otherwise.
pub open spec fn s_declaration_list(items: Seq<ChunkNode>, cur: Cur, out: Out, text: &str) -> (
    Option<WithSpan<Seq<WithSpan<SlotView<VariableDeclarationView>>>>>,
    Cur,
    Out,
) {
    if next_is_group(items, cur, BracketKind::Parenthesis) {
        let n = items[cur.index as int];
        let c = commit(items, cur, out, IsographSemanticToken::Parenthesis);
        let inside = s_declarations(n->children, 0, c.1, text);
        (
            Some(WithSpan { item: inside.0, location: cnode_location(n) }),
            c.0,
            record(inside.1, IsographSemanticToken::Parenthesis, n->closing.location),
        )
    } else {
        (None, cur, out)
    }
}

/// A named or list type, before the `!` decides what it is.
enum NamedOrList {
    Named(NamedTypeAnnotation),
    List(Box<ListTypeAnnotation>),
}

spec fn named_or_list_view(n: NamedOrList) -> NamedOrListView {
    match n {
        NamedOrList::Named(named) => NamedOrListView::Named(named_view(named)),
        NamedOrList::List(l) => NamedOrListView::List(list_type_view(*l)),
    }
}

/// Reads a type.
pub fn parse_type_annotation(cursor: &mut ItemCursor, out: &mut ParseOutput, text: &str) -> (r:
    Result<WithSpan<TypeAnnotation>, WithSpan<ParseError>>)
    requires
        old(cursor).wf(),
        nodes_in_text(text, old(cursor).nodes()),
    ensures
        r matches Err(e) ==> e.item != ParseError::EmptyLiteral,
        only_appends(old(out).view(), final(out).view()),
        adds_no_empty_literal(old(out).view(), final(out).view()),
        final(cursor).items == old(cursor).items,
        final(cursor).wf(),
        (type_result_view(r), final(cursor).cur(), final(out).view()) == s_type_annotation(
            old(cursor).nodes(),
            old(cursor).cur(),
            old(out).view(),
            text,
        ),
    decreases nodes_size(old(cursor).nodes()), 3nat, 0nat,
{
    let core = parse_named_or_list(cursor, out, text)?;
    if cursor.at_token(NonBracketTokenKind::Exclamation) {
        cursor.advance();
        let item = match core.item {
            NamedOrList::Named(named) => TypeAnnotation::Named(named),
            NamedOrList::List(list) => TypeAnnotation::List(list),
        };
        return Ok(WithSpan { item, location: core.location });
    }
    let location = core.location;
    let written = match core.item {
        NamedOrList::Named(named) => UnionVariant::Named(named),
        NamedOrList::List(list) => UnionVariant::List(list),
    };
    let mut variants: Vec<WithOptionalSpan<UnionVariant>> = Vec::new();
    variants.push(WithOptionalSpan { item: written, location: Some(location) });
    variants.push(WithOptionalSpan { item: UnionVariant::Null(NullTypeAnnotation), location: None });
    proof {
        let s = variants@;
        reveal_with_fuel(variants_view, 3);
        assert(s.len() == 2);
        assert(s.subrange(0, 1).subrange(0, 0).len() == 0);
        assert(variants_view(s.subrange(0, 1).subrange(0, 0)) =~= seq![]);
        assert(s.subrange(0, 1)[0] == s[0]);
        assert(variants_view(s.subrange(0, 1)) =~= seq![variant_view(s[0])]);
        assert(variants_view(s) =~= seq![variant_view(s[0]), variant_view(s[1])]);
    }
    Ok(
        WithSpan {
            item: TypeAnnotation::Union(UnionTypeAnnotation(variants)),
            location,
        },
    )
}

/// Reads a type name, or a bracket group holding a list's element type.
fn parse_named_or_list(cursor: &mut ItemCursor, out: &mut ParseOutput, text: &str) -> (r: Result<
    WithSpan<NamedOrList>,
    WithSpan<ParseError>,
>)
    requires
        old(cursor).wf(),
        nodes_in_text(text, old(cursor).nodes()),
    ensures
        r matches Err(e) ==> e.item != ParseError::EmptyLiteral,
        only_appends(old(out).view(), final(out).view()),
        adds_no_empty_literal(old(out).view(), final(out).view()),
        final(cursor).items == old(cursor).items,
        final(cursor).wf(),
        (
            match r {
                Ok(w) => Ok(WithSpan { item: named_or_list_view(w.item), location: w.location }),
                Err(e) => Err(e),
            },
            final(cursor).cur(),
            final(out).view(),
        ) == s_named_or_list(old(cursor).nodes(), old(cursor).cur(), old(out).view(), text),
    decreases nodes_size(old(cursor).nodes()), 2nat, 0nat,
{
    let start = cursor.span_start();
    let before = cursor.previous_end;
    let ghost i = cursor.index();
    let r: Result<NamedOrList, WithSpan<ParseError>> = if let Some(location) = cursor.consume_token_if(
        out,
        NonBracketTokenKind::Identifier,
        IsographSemanticToken::GraphQLTypeName,
    ) {
        proof {
            lemma_token_in_text(text, old(cursor).nodes(), i as int);
        }
        Ok(
            NamedOrList::Named(
                NamedTypeAnnotation {
                    name: WithSpan { item: EntityNameWrapper(token_text(text, location)), location },
                },
            ),
        )
    } else if cursor.at_group(BracketKind::Bracket) {
        proof {
            lemma_group_in_text(text, old(cursor).nodes(), i as int);
        }
        let item = cursor.commit(out, IsographSemanticToken::GraphQLTypeName);
        match &item.item {
            ChunkContentItem::Group(group) => {
                let inside = parse_bracket_interior_type(&group.children, out, text);
                out.record(IsographSemanticToken::GraphQLTypeName, group.closing.location);
                match inside {
                    Ok((inner, extra)) => Ok(NamedOrList::List(Box::new(ListTypeAnnotation { inner, extra }))),
                    Err(e) => Err(e),
                }
            },
            ChunkContentItem::NonBracket(_) => Err(cursor.expected(Expectation::TypeAnnotation)),
        }
    } else {
        Err(cursor.expected(Expectation::TypeAnnotation))
    };
    match r {
        Ok(core) => Ok(WithSpan { item: core, location: cursor.span_since(start, before) }),
        Err(e) => Err(e),
    }
}

/// Reads a list type's interior: its element type and the items of its chunk left unread.
fn parse_bracket_interior_type(level: &WithSpan<ChunkedLevel>, out: &mut ParseOutput, text: &str) -> (r:
    Result<(Option<WithSpan<TypeAnnotation>>, Option<WithSpan<UnparsedChunkItems>>), WithSpan<ParseError>>)
    requires
        chunks_in_text(text, chunk_views_of(level.item.0@)),
    ensures
        r matches Err(e) ==> e.item != ParseError::EmptyLiteral,
        only_appends(old(out).view(), final(out).view()),
        adds_no_empty_literal(old(out).view(), final(out).view()),
        (
            match r {
                Ok(p) => Ok(
                    ListTypeView {
                        inner: match p.0 {
                            Some(t) => Some(spanned_type_view(t)),
                            None => None,
                        },
                        extra: unparsed_view(p.1),
                    },
                ),
                Err(e) => Err(e),
            },
            final(out).view(),
        ) == s_bracket_interior(chunk_views_of(level.item.0@), level.location, old(out).view(), text),
    decreases chunks_size(chunk_views_of(level.item.0@)), 5nat, 0nat,
{
    let ghost cs = chunk_views_of(level.item.0@);
    proof {
        lemma_chunk_views_of_len(level.item.0@);
    }
    if level.item.0.len() == 0 {
        return Err(
            WithSpan {
                item: ParseError::expected(Expectation::TypeAnnotation, Found::EndOfChunk),
                location: Span::new(level.location.end, level.location.end),
            },
        );
    }
    proof {
        lemma_chunk_in_text(text, cs, 0);
    }
    let chunk = &level.item.0[0];
    let mut cursor = ItemCursor::new(&chunk.item.contents);
    let start = cursor.span_start();
    let before = cursor.previous_end;
    let parsed = match parse_type_annotation(&mut cursor, out, text) {
        Ok(t) => Ok(WithSpan { item: t, location: cursor.span_since(start, before) }),
        Err(e) => Err(e),
    };
    let (extra, slot_location) = finish_chunk(
        &cursor,
        match &parsed {
            Ok(w) => Ok(w.location),
            Err(e) => Err(*e),
        },
        Expectation::EndOfType,
        out,
    );
    report_boundary_comma(chunk, Expectation::EndOfType, out);
    let (extra, _) = attach_boundary_comma(chunk, extra, slot_location);
    if level.item.0.len() > 1 {
        let second = &level.item.0[1];
        out.report_error(
            WithSpan {
                item: ParseError::expected(
                    Expectation::EndOfType,
                    found_of(&second.item.first_item().item),
                ),
                location: second.location,
            },
        );
        fill_chunks_from_index(&level.item.0, 1, out);
    }
    Ok(
        (
            match parsed {
                Ok(w) => Some(w.item),
                Err(_) => None,
            },
            extra,
        ),
    )
}

/// Reads a variable declaration.
pub fn parse_variable_declaration(cursor: &mut ItemCursor, out: &mut ParseOutput, text: &str) -> (r:
    Result<VariableDeclaration, WithSpan<ParseError>>)
    requires
        old(cursor).wf(),
        nodes_in_text(text, old(cursor).nodes()),
    ensures
        r matches Err(e) ==> e.item != ParseError::EmptyLiteral,
        only_appends(old(out).view(), final(out).view()),
        adds_no_empty_literal(old(out).view(), final(out).view()),
        final(cursor).items == old(cursor).items,
        final(cursor).wf(),
        (
            match r {
                Ok(d) => Ok(declaration_view(d)),
                Err(e) => Err(e),
            },
            final(cursor).cur(),
            final(out).view(),
        ) == s_declaration(old(cursor).nodes(), old(cursor).cur(), old(out).view(), text),
{
    let name = parse_variable_name(cursor, out, text, Expectation::VariableDeclaration)?;
    cursor.require_token(
        out,
        NonBracketTokenKind::Colon,
        IsographSemanticToken::Colon,
        Expectation::Token(NonBracketTokenKind::Colon),
    )?;
    let type_ = parse_type_annotation(cursor, out, text)?;
    let default_value = if cursor.at_token(NonBracketTokenKind::Equals) {
        cursor.commit(out, IsographSemanticToken::Equals);
        Some(parse_non_constant_value(cursor, out, text)?)
    } else {
        None
    };
    Ok(VariableDeclaration { name, type_, default_value })
}

/// Reads each chunk of a variable declaration list's interior as a declaration.
pub fn parse_variable_declarations(level: &ChunkedLevel, out: &mut ParseOutput, text: &str) -> (slots:
    Vec<WithSpan<Slot<VariableDeclaration, UnparsedChunkItems>>>)
    requires
        chunks_in_text(text, chunk_views_of(level.0@)),
    ensures
        only_appends(old(out).view(), final(out).view()),
        adds_no_empty_literal(old(out).view(), final(out).view()),
        (declaration_slots_view(slots@), final(out).view()) == s_declarations(
            chunk_views_of(level.0@),
            0,
            old(out).view(),
            text,
        ),
{
    let ghost cs = chunk_views_of(level.0@);
    let ghost target = s_declarations(cs, 0, out.view(), text);
    proof {
        lemma_chunk_views_of_len(level.0@);
    }
    let mut slots: Vec<WithSpan<Slot<VariableDeclaration, UnparsedChunkItems>>> = Vec::new();
    let mut j: usize = 0;
    while j < level.0.len()
        invariant
            only_appends(old(out).view(), out.view()),
            adds_no_empty_literal(old(out).view(), out.view()),
            cs == chunk_views_of(level.0@),
            cs.len() == level.0@.len(),
            forall|k: int| 0 <= k < cs.len() ==> #[trigger] cs[k] == chunk_view_of(level.0@[k]),
            chunks_in_text(text, cs),
            j <= level.0.len(),
            target.0 == declaration_slots_view(slots@) + s_declarations(cs, j as int, out.view(), text).0,
            target.1 == s_declarations(cs, j as int, out.view(), text).1,
        decreases level.0.len() - j,
    {
        proof {
            lemma_chunk_in_text(text, cs, j as int);
        }
        let ghost o = out.view();
        let chunk = &level.0[j];
        let mut cursor = ItemCursor::new(&chunk.item.contents);
        let start = cursor.span_start();
        let before = cursor.previous_end;
        let parsed = match parse_variable_declaration(&mut cursor, out, text) {
            Ok(d) => Ok(WithSpan { item: d, location: cursor.span_since(start, before) }),
            Err(e) => Err(e),
        };
        let (extra, location) = finish_chunk(
            &cursor,
            match &parsed {
                Ok(w) => Ok(w.location),
                Err(e) => Err(*e),
            },
            Expectation::Separator(BracketKind::Parenthesis),
            out,
        );
        let slot = WithSpan {
            item: Slot {
                item: match parsed {
                    Ok(w) => Some(w),
                    Err(_) => None,
                },
                extra,
            },
            location,
        };
        proof {
            lemma_declaration_slots_push(slots@, slot);
        }
        slots.push(slot);
        proof {
            let rest = s_declarations(cs, j + 1, out.view(), text);
            assert(s_declarations(cs, j as int, o, text).0 == seq![declaration_slot_view(slot)] + rest.0);
            assert(target.0 =~= declaration_slots_view(slots@) + rest.0);
        }
        j += 1;
    }
    slots
}

/// Reads a variable declaration list when the next item is a parenthesized group.
pub fn consume_variable_declaration_list(cursor: &mut ItemCursor, out: &mut ParseOutput, text: &str) -> (r:
    Option<WithSpan<VariableDeclarationList>>)
    requires
        old(cursor).wf(),
        nodes_in_text(text, old(cursor).nodes()),
    ensures
        only_appends(old(out).view(), final(out).view()),
        adds_no_empty_literal(old(out).view(), final(out).view()),
        final(cursor).items == old(cursor).items,
        final(cursor).wf(),
        (declaration_list_view(r), final(cursor).cur(), final(out).view()) == s_declaration_list(
            old(cursor).nodes(),
            old(cursor).cur(),
            old(out).view(),
            text,
        ),
{
    if !cursor.at_group(BracketKind::Parenthesis) {
        return None;
    }
    let ghost i = cursor.index();
    proof {
        lemma_group_in_text(text, old(cursor).nodes(), i as int);
    }
    let item = cursor.commit(out, IsographSemanticToken::Parenthesis);
    match &item.item {
        ChunkContentItem::Group(group) => {
            let declarations = parse_variable_declarations(&group.children.item, out, text);
            out.record(IsographSemanticToken::Parenthesis, group.closing.location);
            Some(WithSpan { item: VariableDeclarationList(declarations), location: item.location })
        },
        ChunkContentItem::NonBracket(_) => None,
    }
}

} // verus!
