use vstd::prelude::*;

use crate::chunk::{
    chunk_view_of, chunk_views_of, lemma_chunk_views_of_len, ChunkContentItem, ChunkNode,
    ChunkView, ChunkedLevel
};
use crate::chunk_stream::{
    cnode_location, commit, expected_here, next_is_group, next_is_token, record, s_require,
    span_since, span_start, start_cur, Cur, ItemCursor, Out, ParseOutput, adds_no_empty_literal, only_appends,
};
use crate::leftover::{chunks_size, lemma_chunks_size_elem, lemma_nodes_size_elem, nodes_size};
use crate::non_bracket_token::{BracketKind, NonBracketTokenKind};
use crate::parse_error::{Expectation, ExpectedFound, Found, ParseError};
use crate::semantic_token::IsographSemanticToken;
use crate::slot::{
    chunks_in_text, finish_chunk, nodes_in_text, s_slot, spanned, token_fits, token_text,
    unparsed_view, Slot, SlotView, UnparsedChunkItems
};
use crate::span::{Span, WithSpan};
use crate::string_value::{clean_block_string, spec_clean_block_string};
use crate::text::{parse_i64, span_text, spec_parse_i64, strip, text_is, token_interior};

verus! {

/// The arguments of a selection or a directive, one slot per chunk.
#[derive(Debug, PartialEq, Eq)]
pub struct ArgumentList(pub Vec<WithSpan<Slot<Argument, UnparsedChunkItems>>>);

/// An object literal, one slot per chunk.
#[derive(Debug, PartialEq, Eq)]
pub struct ObjectLiteral(pub Vec<WithSpan<Slot<ObjectEntry, UnparsedChunkItems>>>);

/// A list literal, one slot per chunk.
#[derive(Debug, PartialEq, Eq)]
pub struct ListLiteral(pub Vec<WithSpan<Slot<ListLiteralValue, UnparsedChunkItems>>>);

/// `name: value` in an argument list.
#[derive(Debug, PartialEq, Eq)]
pub struct Argument {
    pub name: WithSpan<ArgumentNameWrapper>,
    pub value: WithSpan<NonConstantValue>,
}

/// `key: value` in an object literal.
#[derive(Debug, PartialEq, Eq)]
pub struct ObjectEntry {
    pub name: WithSpan<ValueKeyNameWrapper>,
    pub value: WithSpan<NonConstantValue>,
}

/// A value in a list literal.
#[derive(Debug, PartialEq, Eq)]
pub struct ListLiteralValue {
    pub value: WithSpan<NonConstantValue>,
}

/// A value, which may refer to a variable.
#[derive(Debug, PartialEq, Eq)]
pub enum NonConstantValue {
    Variable(VariableUse),
    String(StringLiteralValueWrapper),
    Integer(IntegerValue),
    Boolean(BooleanValue),
    Null(NullValue),
    Object(ObjectLiteral),
    List(ListLiteral),
}

/// `$name`, as declared or as used: the name's span excludes the dollar.
#[derive(Clone, Debug, PartialEq, Eq)]
pub struct VariableDeclarationOrUsage(pub WithSpan<VariableNameWrapper>);

/// A variable used as a value.
#[derive(Clone, Debug, PartialEq, Eq)]
pub struct VariableUse(pub WithSpan<VariableDeclarationOrUsage>);

/// The contents of a string literal, quotes excluded; a block string's cleaned.
#[derive(Clone, Debug, PartialEq, Eq)]
pub struct StringLiteralValueWrapper(pub String);

#[derive(Copy, Clone, Debug, PartialEq, Eq, Structural)]
pub struct IntegerValue(pub i64);

#[derive(Copy, Clone, Debug, PartialEq, Eq, Structural)]
pub struct BooleanValue(pub Boolean);

#[derive(Copy, Clone, Debug, PartialEq, Eq, Structural)]
pub enum Boolean {
    True,
    False,
}

#[derive(Copy, Clone, Debug, PartialEq, Eq, Structural)]
pub struct NullValue;

#[derive(Clone, Debug, PartialEq, Eq)]
pub struct ArgumentNameWrapper(pub String);

#[derive(Clone, Debug, PartialEq, Eq)]
pub struct ValueKeyNameWrapper(pub String);

#[derive(Clone, Debug, PartialEq, Eq)]
pub struct VariableNameWrapper(pub String);

/// The abstract value of a value.
pub enum ValueView {
    /// The `$name` span, and the name with its own span.
    Variable(WithSpan<WithSpan<Seq<char>>>),
    String(Seq<char>),
    Integer(i64),
    Boolean(Boolean),
    Null,
    Object(Seq<WithSpan<SlotView<NameValueView>>>),
    List(Seq<WithSpan<SlotView<WithSpan<ValueView>>>>),
}

/// The abstract value of an argument or an object entry.
pub struct NameValueView {
    pub name: WithSpan<Seq<char>>,
    pub value: WithSpan<ValueView>,
}

/// A name read from the text, with its span.
pub open spec fn name_of(text: &str, location: Span) -> WithSpan<Seq<char>> {
    WithSpan { item: span_text(text, location), location }
}

pub open spec fn variable_view(v: WithSpan<VariableDeclarationOrUsage>) -> WithSpan<
    WithSpan<Seq<char>>,
> {
    WithSpan {
        item: WithSpan { item: v.item.0.item.0@, location: v.item.0.location },
        location: v.location,
    }
}

pub open spec fn value_view(v: NonConstantValue) -> ValueView
    decreases v,
{
    match v {
        NonConstantValue::Variable(u) => ValueView::Variable(variable_view(u.0)),
        NonConstantValue::String(s) => ValueView::String(s.0@),
        NonConstantValue::Integer(i) => ValueView::Integer(i.0),
        NonConstantValue::Boolean(b) => ValueView::Boolean(b.0),
        NonConstantValue::Null(_) => ValueView::Null,
        NonConstantValue::Object(o) => ValueView::Object(entry_slots_view(o.0@)),
        NonConstantValue::List(l) => ValueView::List(list_slots_view(l.0@)),
    }
}

pub open spec fn spanned_value_view(v: WithSpan<NonConstantValue>) -> WithSpan<ValueView>
    decreases v,
{
    WithSpan { item: value_view(v.item), location: v.location }
}

pub open spec fn entry_view(e: ObjectEntry) -> NameValueView
    decreases e,
{
    NameValueView {
        name: WithSpan { item: e.name.item.0@, location: e.name.location },
        value: spanned_value_view(e.value),
    }
}

pub open spec fn entry_slot_view(s: WithSpan<Slot<ObjectEntry, UnparsedChunkItems>>) -> WithSpan<
    SlotView<NameValueView>,
>
    decreases s,
{
    WithSpan {
        item: SlotView {
            item: match s.item.item {
                Some(w) => Some(WithSpan { item: entry_view(w.item), location: w.location }),
                None => None,
            },
            extra: unparsed_view(s.item.extra),
        },
        location: s.location,
    }
}

pub open spec fn entry_slots_view(s: Seq<WithSpan<Slot<ObjectEntry, UnparsedChunkItems>>>) -> Seq<
    WithSpan<SlotView<NameValueView>>,
>
    decreases s,
{
    if s.len() == 0 {
        seq![]
    } else {
        entry_slots_view(s.subrange(0, s.len() - 1)).push(entry_slot_view(s[s.len() - 1]))
    }
}

pub open spec fn list_slot_view(s: WithSpan<Slot<ListLiteralValue, UnparsedChunkItems>>) -> WithSpan<
    SlotView<WithSpan<ValueView>>,
>
    decreases s,
{
    WithSpan {
        item: SlotView {
            item: match s.item.item {
                Some(w) => Some(WithSpan { item: spanned_value_view(w.item.value), location: w.location }),
                None => None,
            },
            extra: unparsed_view(s.item.extra),
        },
        location: s.location,
    }
}

pub open spec fn list_slots_view(s: Seq<WithSpan<Slot<ListLiteralValue, UnparsedChunkItems>>>) -> Seq<
    WithSpan<SlotView<WithSpan<ValueView>>>,
>
    decreases s,
{
    if s.len() == 0 {
        seq![]
    } else {
        list_slots_view(s.subrange(0, s.len() - 1)).push(list_slot_view(s[s.len() - 1]))
    }
}

pub open spec fn argument_view(a: Argument) -> NameValueView {
    NameValueView {
        name: WithSpan { item: a.name.item.0@, location: a.name.location },
        value: spanned_value_view(a.value),
    }
}

pub open spec fn argument_slot_view(s: WithSpan<Slot<Argument, UnparsedChunkItems>>) -> WithSpan<
    SlotView<NameValueView>,
> {
    WithSpan {
        item: SlotView {
            item: match s.item.item {
                Some(w) => Some(WithSpan { item: argument_view(w.item), location: w.location }),
                None => None,
            },
            extra: unparsed_view(s.item.extra),
        },
        location: s.location,
    }
}

pub open spec fn argument_slots_view(s: Seq<WithSpan<Slot<Argument, UnparsedChunkItems>>>) -> Seq<
    WithSpan<SlotView<NameValueView>>,
>
    decreases s.len(),
{
    if s.len() == 0 {
        seq![]
    } else {
        argument_slots_view(s.subrange(0, s.len() - 1)).push(argument_slot_view(s[s.len() - 1]))
    }
}

/// The abstract value of an optional argument list.
pub open spec fn argument_list_view(a: Option<WithSpan<ArgumentList>>) -> Option<
    WithSpan<Seq<WithSpan<SlotView<NameValueView>>>>,
> {
    match a {
        Some(w) => Some(WithSpan { item: argument_slots_view(w.item.0@), location: w.location }),
        None => None,
    }
}

pub open spec fn value_result_view(r: Result<WithSpan<NonConstantValue>, WithSpan<ParseError>>) -> Result<
    WithSpan<ValueView>,
    WithSpan<ParseError>,
> {
    match r {
        Ok(v) => Ok(spanned_value_view(v)),
        Err(e) => Err(e),
    }
}

proof fn lemma_entry_slots_push(
    s: Seq<WithSpan<Slot<ObjectEntry, UnparsedChunkItems>>>,
    x: WithSpan<Slot<ObjectEntry, UnparsedChunkItems>>,
)
    ensures
        entry_slots_view(s.push(x)) == entry_slots_view(s).push(entry_slot_view(x)),
{
    assert(s.push(x).subrange(0, s.len() as int) =~= s);
}

proof fn lemma_list_slots_push(
    s: Seq<WithSpan<Slot<ListLiteralValue, UnparsedChunkItems>>>,
    x: WithSpan<Slot<ListLiteralValue, UnparsedChunkItems>>,
)
    ensures
        list_slots_view(s.push(x)) == list_slots_view(s).push(list_slot_view(x)),
{
    assert(s.push(x).subrange(0, s.len() as int) =~= s);
}

proof fn lemma_argument_slots_push(
    s: Seq<WithSpan<Slot<Argument, UnparsedChunkItems>>>,
    x: WithSpan<Slot<Argument, UnparsedChunkItems>>,
)
    ensures
        argument_slots_view(s.push(x)) == argument_slots_view(s).push(argument_slot_view(x)),
{
    assert(s.push(x).subrange(0, s.len() as int) =~= s);
}

/// What a token at `i` tells of the text.
pub proof fn lemma_token_in_text(text: &str, ns: Seq<ChunkNode>, i: int)
    requires
        nodes_in_text(text, ns),
        0 <= i < ns.len(),
        ns[i] is Token,
    ensures
        token_fits(text, ns[i]->kind, ns[i]->Token_location),
{
    crate::slot::lemma_node_in_text(text, ns, i);
}

/// What a group at `i` tells of the text, and of the size of its interior.
pub proof fn lemma_group_in_text(text: &str, ns: Seq<ChunkNode>, i: int)
    requires
        nodes_in_text(text, ns),
        0 <= i < ns.len(),
        ns[i] is Group,
    ensures
        chunks_in_text(text, ns[i]->children),
        chunks_size(ns[i]->children) < nodes_size(ns),
{
    crate::slot::lemma_node_in_text(text, ns, i);
    lemma_nodes_size_elem(ns, i);
}

/// What a level's `j`-th chunk tells of the text, and of its size.
pub proof fn lemma_chunk_in_text(text: &str, cs: Seq<ChunkView>, j: int)
    requires
        chunks_in_text(text, cs),
        0 <= j < cs.len(),
    ensures
        nodes_in_text(text, cs[j].contents),
        nodes_size(cs[j].contents) < chunks_size(cs),
{
    crate::slot::lemma_chunk_contents_in_text(text, cs, j);
    lemma_chunks_size_elem(cs, j);
}

/// Reading `$name`: the usage with its span, or the error of expecting `missing` where the
/// dollar should be.
pub open spec fn s_variable_name(
    items: Seq<ChunkNode>,
    cur: Cur,
    out: Out,
    text: &str,
    missing: Expectation,
) -> (Result<WithSpan<WithSpan<Seq<char>>>, WithSpan<ParseError>>, Cur, Out) {
    let d = s_require(items, cur, out, NonBracketTokenKind::Dollar, IsographSemanticToken::Variable, missing);
    match d.0 {
        Err(e) => (Err(e), d.1, d.2),
        Ok(_) => {
            let n = s_require(
                items,
                d.1,
                d.2,
                NonBracketTokenKind::Identifier,
                IsographSemanticToken::Variable,
                Expectation::Token(NonBracketTokenKind::Identifier),
            );
            match n.0 {
                Err(e) => (Err(e), n.1, n.2),
                Ok(location) => (
                    Ok(
                        WithSpan {
                            item: name_of(text, location),
                            location: span_since(span_start(items, cur), cur.previous_end, n.1),
                        },
                    ),
                    n.1,
                    n.2,
                ),
            }
        },
    }
}

/// Reading a string or block string literal: its contents.
pub open spec fn s_string_literal(items: Seq<ChunkNode>, cur: Cur, out: Out, text: &str) -> (
    Result<Seq<char>, WithSpan<ParseError>>,
    Cur,
    Out,
) {
    if next_is_token(items, cur, NonBracketTokenKind::StringLiteral) {
        let c = commit(items, cur, out, IsographSemanticToken::String);
        (Ok(strip(span_text(text, cnode_location(items[cur.index as int])), 1)), c.0, c.1)
    } else if next_is_token(items, cur, NonBracketTokenKind::BlockStringLiteral) {
        let c = commit(items, cur, out, IsographSemanticToken::String);
        (
            Ok(spec_clean_block_string(strip(span_text(text, cnode_location(items[cur.index as int])), 3))),
            c.0,
            c.1,
        )
    } else {
        (Err(expected_here(items, cur, Expectation::Token(NonBracketTokenKind::StringLiteral))), cur, out)
    }
}

/// Reading an integer literal: its value, or an error at it when it does not fit 64 bits.
pub open spec fn s_integer(items: Seq<ChunkNode>, cur: Cur, out: Out, text: &str) -> (
    Result<i64, WithSpan<ParseError>>,
    Cur,
    Out,
) {
    let r = s_require(
        items,
        cur,
        out,
        NonBracketTokenKind::IntegerLiteral,
        IsographSemanticToken::Integer,
        Expectation::Token(NonBracketTokenKind::IntegerLiteral),
    );
    match r.0 {
        Err(e) => (Err(e), r.1, r.2),
        Ok(location) => match spec_parse_i64(span_text(text, location)) {
            Some(v) => (Ok(v), r.1, r.2),
            None => (Err(WithSpan { item: ParseError::IntegerDoesNotFitI64, location }), r.1, r.2),
        },
    }
}

/// Reading `true`, `false` or `null`.
pub open spec fn s_boolean_or_null(items: Seq<ChunkNode>, cur: Cur, out: Out, text: &str) -> (
    Result<ValueView, WithSpan<ParseError>>,
    Cur,
    Out,
) {
    let r = s_require(
        items,
        cur,
        out,
        NonBracketTokenKind::Identifier,
        IsographSemanticToken::BooleanOrNull,
        Expectation::Token(NonBracketTokenKind::Identifier),
    );
    match r.0 {
        Err(e) => (Err(e), r.1, r.2),
        Ok(location) => {
            let word = span_text(text, location);
            if word == "true"@ {
                (Ok(ValueView::Boolean(Boolean::True)), r.1, r.2)
            } else if word == "false"@ {
                (Ok(ValueView::Boolean(Boolean::False)), r.1, r.2)
            } else if word == "null"@ {
                (Ok(ValueView::Null), r.1, r.2)
            } else {
                (
                    Err(
                        WithSpan {
                            item: ParseError::Expected(
                                ExpectedFound {
                                    expected: Expectation::Value,
                                    found: Found::Token(NonBracketTokenKind::Identifier),
                                },
                            ),
                            location,
                        },
                    ),
                    r.1,
                    r.2,
                )
            }
        },
    }
}

/// Reading a value, by what its first item is; spanned from its first item to the last it read.
pub open spec fn s_value(items: Seq<ChunkNode>, cur: Cur, out: Out, text: &str) -> (
    Result<WithSpan<ValueView>, WithSpan<ParseError>>,
    Cur,
    Out,
)
    decreases nodes_size(items), 2nat, 0nat,
{
    let r: (Result<ValueView, WithSpan<ParseError>>, Cur, Out) = if next_is_token(
        items,
        cur,
        NonBracketTokenKind::Dollar,
    ) {
        let v = s_variable_name(items, cur, out, text, Expectation::Token(NonBracketTokenKind::Dollar));
        (
            match v.0 {
                Ok(u) => Ok(ValueView::Variable(u)),
                Err(e) => Err(e),
            },
            v.1,
            v.2,
        )
    } else if next_is_token(items, cur, NonBracketTokenKind::StringLiteral) || next_is_token(
        items,
        cur,
        NonBracketTokenKind::BlockStringLiteral,
    ) {
        let v = s_string_literal(items, cur, out, text);
        (
            match v.0 {
                Ok(s) => Ok(ValueView::String(s)),
                Err(e) => Err(e),
            },
            v.1,
            v.2,
        )
    } else if next_is_token(items, cur, NonBracketTokenKind::IntegerLiteral) {
        let v = s_integer(items, cur, out, text);
        (
            match v.0 {
                Ok(i) => Ok(ValueView::Integer(i)),
                Err(e) => Err(e),
            },
            v.1,
            v.2,
        )
    } else if next_is_token(items, cur, NonBracketTokenKind::Identifier) {
        s_boolean_or_null(items, cur, out, text)
    } else if next_is_group(items, cur, BracketKind::Brace) {
        let n = items[cur.index as int];
        let c = commit(items, cur, out, IsographSemanticToken::Brace);
        proof {
            lemma_nodes_size_elem(items, cur.index as int);
        }
        let inside = s_entries(n->children, 0, c.1, text);
        (
            Ok(ValueView::Object(inside.0)),
            c.0,
            record(inside.1, IsographSemanticToken::Brace, n->closing.location),
        )
    } else if next_is_group(items, cur, BracketKind::Bracket) {
        let n = items[cur.index as int];
        let c = commit(items, cur, out, IsographSemanticToken::Bracket);
        proof {
            lemma_nodes_size_elem(items, cur.index as int);
        }
        let inside = s_list_values(n->children, 0, c.1, text);
        (
            Ok(ValueView::List(inside.0)),
            c.0,
            record(inside.1, IsographSemanticToken::Bracket, n->closing.location),
        )
    } else {
        (Err(expected_here(items, cur, Expectation::Value)), cur, out)
    };
    (spanned(r.0, span_start(items, cur), cur.previous_end, r.1), r.1, r.2)
}

/// The next item decides what kind of value is read: `$` a variable, a string or block string
/// literal a string, an integer literal an integer, an identifier `true`, `false` or `null`, a
/// brace group an object and a bracket group a list, which always succeed; anything else is a
/// value expected there, with nothing read and nothing recorded.
pub proof fn law_the_next_item_decides_the_value(items: Seq<ChunkNode>, cur: Cur, out: Out, text: &str)
    ensures
        ({
            let r = s_value(items, cur, out, text);
            &&& next_is_token(items, cur, NonBracketTokenKind::Dollar) ==> (r.0 matches Ok(w) ==> w.item is Variable)
            &&& (next_is_token(items, cur, NonBracketTokenKind::StringLiteral) || next_is_token(
                items,
                cur,
                NonBracketTokenKind::BlockStringLiteral,
            )) ==> (r.0 matches Ok(w) ==> w.item is String)
            &&& next_is_token(items, cur, NonBracketTokenKind::IntegerLiteral) ==> (r.0 matches Ok(w) ==> w.item is Integer)
            &&& next_is_token(items, cur, NonBracketTokenKind::Identifier) ==> (r.0 matches Ok(w) ==> (w.item is Boolean
                || w.item is Null))
            &&& next_is_group(items, cur, BracketKind::Brace) ==> (r.0 matches Ok(w) && w.item is Object)
            &&& next_is_group(items, cur, BracketKind::Bracket) ==> (r.0 matches Ok(w) && w.item is List)
            &&& !next_is_token(items, cur, NonBracketTokenKind::Dollar) && !next_is_token(
                items,
                cur,
                NonBracketTokenKind::StringLiteral,
            ) && !next_is_token(items, cur, NonBracketTokenKind::BlockStringLiteral) && !next_is_token(
                items,
                cur,
                NonBracketTokenKind::IntegerLiteral,
            ) && !next_is_token(items, cur, NonBracketTokenKind::Identifier) && !next_is_group(items, cur, BracketKind::Brace)
                && !next_is_group(items, cur, BracketKind::Bracket) ==> r == (
                Err::<WithSpan<ValueView>, WithSpan<ParseError>>(expected_here(items, cur, Expectation::Value)),
                cur,
                out,
            )
        }),
{
}

/// Reading `name: value`, the name with role `role`, `missing` expected where the name should
/// be.
pub open spec fn s_name_value(
    items: Seq<ChunkNode>,
    cur: Cur,
    out: Out,
    text: &str,
    role: IsographSemanticToken,
    missing: Expectation,
) -> (Result<NameValueView, WithSpan<ParseError>>, Cur, Out)
    decreases nodes_size(items), 3nat, 0nat,
{
    let n = s_require(items, cur, out, NonBracketTokenKind::Identifier, role, missing);
    match n.0 {
        Err(e) => (Err(e), n.1, n.2),
        Ok(name) => {
            let c = s_require(
                items,
                n.1,
                n.2,
                NonBracketTokenKind::Colon,
                IsographSemanticToken::Colon,
                Expectation::Token(NonBracketTokenKind::Colon),
            );
            match c.0 {
                Err(e) => (Err(e), c.1, c.2),
                Ok(_) => {
                    let v = s_value(items, c.1, c.2, text);
                    match v.0 {
                        Err(e) => (Err(e), v.1, v.2),
                        Ok(value) => (Ok(NameValueView { name: name_of(text, name), value }), v.1, v.2),
                    }
                },
            }
        },
    }
}

/// The slots of an object literal's chunks, from the `j`-th on.
pub open spec fn s_entries(cs: Seq<ChunkView>, j: int, out: Out, text: &str) -> (
    Seq<WithSpan<SlotView<NameValueView>>>,
    Out,
)
    decreases chunks_size(cs), 5nat, cs.len() - j,
{
    if 0 <= j < cs.len() {
        proof {
            lemma_chunks_size_elem(cs, j);
        }
        let items = cs[j].contents;
        let cur = start_cur(items);
        let p = s_name_value(
            items,
            cur,
            out,
            text,
            IsographSemanticToken::ObjectKey,
            Expectation::ObjectEntry,
        );
        let slot = s_slot(
            items,
            spanned(p.0, span_start(items, cur), cur.previous_end, p.1),
            p.1,
            p.2,
            Expectation::Separator(BracketKind::Brace),
        );
        let rest = s_entries(cs, j + 1, slot.1, text);
        (seq![slot.0] + rest.0, rest.1)
    } else {
        (seq![], out)
    }
}

/// The slots of a list literal's chunks, from the `j`-th on.
pub open spec fn s_list_values(cs: Seq<ChunkView>, j: int, out: Out, text: &str) -> (
    Seq<WithSpan<SlotView<WithSpan<ValueView>>>>,
    Out,
)
    decreases chunks_size(cs), 5nat, cs.len() - j,
{
    if 0 <= j < cs.len() {
        proof {
            lemma_chunks_size_elem(cs, j);
        }
        let items = cs[j].contents;
        let cur = start_cur(items);
        let p = s_value(items, cur, out, text);
        let slot = s_slot(
            items,
            spanned(p.0, span_start(items, cur), cur.previous_end, p.1),
            p.1,
            p.2,
            Expectation::Separator(BracketKind::Bracket),
        );
        let rest = s_list_values(cs, j + 1, slot.1, text);
        (seq![slot.0] + rest.0, rest.1)
    } else {
        (seq![], out)
    }
}

/// The slots of an argument list's chunks, from the `j`-th on.
pub open spec fn s_arguments(cs: Seq<ChunkView>, j: int, out: Out, text: &str) -> (
    Seq<WithSpan<SlotView<NameValueView>>>,
    Out,
)
    decreases cs.len() - j,
{
    if 0 <= j < cs.len() {
        let items = cs[j].contents;
        let cur = start_cur(items);
        let p = s_name_value(
            items,
            cur,
            out,
            text,
            IsographSemanticToken::Argument,
            Expectation::Argument,
        );
        let slot = s_slot(
            items,
            spanned(p.0, span_start(items, cur), cur.previous_end, p.1),
            p.1,
            p.2,
            Expectation::Separator(BracketKind::Parenthesis),
        );
        let rest = s_arguments(cs, j + 1, slot.1, text);
        (seq![slot.0] + rest.0, rest.1)
    } else {
        (seq![], out)
    }
}

/// Reading an argument list when the next item is a parenthesized group; nothing otherwise.
pub open spec fn s_argument_list(items: Seq<ChunkNode>, cur: Cur, out: Out, text: &str) -> (
    Option<WithSpan<Seq<WithSpan<SlotView<NameValueView>>>>>,
    Cur,
    Out,
) {
    if next_is_group(items, cur, BracketKind::Parenthesis) {
        let n = items[cur.index as int];
        let c = commit(items, cur, out, IsographSemanticToken::Parenthesis);
        let inside = s_arguments(n->children, 0, c.1, text);
        (
            Some(WithSpan { item: inside.0, location: cnode_location(n) }),
            c.0,
            record(inside.1, IsographSemanticToken::Parenthesis, n->closing.location),
        )
    } else {
        (None, cur, out)
    }
}

/// Reads `$name`, the dollar expected as `missing`.
pub fn parse_variable_name(
    cursor: &mut ItemCursor,
    out: &mut ParseOutput,
    text: &str,
    missing: Expectation,
) -> (r: Result<WithSpan<VariableDeclarationOrUsage>, WithSpan<ParseError>>)
    requires
        old(cursor).wf(),
        nodes_in_text(text, old(cursor).nodes()),
    ensures
        r matches Err(e) ==> e.item != ParseError::EmptyLiteral,
        only_appends(old(out).view(), final(out).view()),
        adds_no_empty_literal(old(out).view(), final(out).view()),
        final(cursor).items == old(cursor).items,
        final(cursor).wf(),
        (
            match r {
                Ok(v) => Ok(variable_view(v)),
                Err(e) => Err(e),
            },
            final(cursor).cur(),
            final(out).view(),
        ) == s_variable_name(old(cursor).nodes(), old(cursor).cur(), old(out).view(), text, missing),
{
    let start = cursor.span_start();
    let before = cursor.previous_end;
    cursor.require_token(out, NonBracketTokenKind::Dollar, IsographSemanticToken::Variable, missing)?;
    let ghost i = cursor.index();
    let location = cursor.require_token(
        out,
        NonBracketTokenKind::Identifier,
        IsographSemanticToken::Variable,
        Expectation::Token(NonBracketTokenKind::Identifier),
    )?;
    proof {
        lemma_token_in_text(text, cursor.nodes(), i as int);
    }
    let name = token_text(text, location);
    Ok(
        WithSpan {
            item: VariableDeclarationOrUsage(WithSpan { item: VariableNameWrapper(name), location }),
            location: cursor.span_since(start, before),
        },
    )
}

/// Reads a string or block string literal.
fn parse_string_literal(cursor: &mut ItemCursor, out: &mut ParseOutput, text: &str) -> (r: Result<
    StringLiteralValueWrapper,
    WithSpan<ParseError>,
>)
    requires
        old(cursor).wf(),
        nodes_in_text(text, old(cursor).nodes()),
    ensures
        r matches Err(e) ==> e.item != ParseError::EmptyLiteral,
        only_appends(old(out).view(), final(out).view()),
        adds_no_empty_literal(old(out).view(), final(out).view()),
        final(cursor).items == old(cursor).items,
        final(cursor).wf(),
        (
            match r {
                Ok(v) => Ok(v.0@),
                Err(e) => Err(e),
            },
            final(cursor).cur(),
            final(out).view(),
        ) == s_string_literal(old(cursor).nodes(), old(cursor).cur(), old(out).view(), text),
{
    let ghost i = cursor.index();
    if let Some(location) = cursor.consume_token_if(
        out,
        NonBracketTokenKind::StringLiteral,
        IsographSemanticToken::String,
    ) {
        proof {
            lemma_token_in_text(text, old(cursor).nodes(), i as int);
        }
        return Ok(StringLiteralValueWrapper(token_interior(text, location, 1)));
    }
    if let Some(location) = cursor.consume_token_if(
        out,
        NonBracketTokenKind::BlockStringLiteral,
        IsographSemanticToken::String,
    ) {
        proof {
            lemma_token_in_text(text, old(cursor).nodes(), i as int);
        }
        let interior = token_interior(text, location, 3);
        return Ok(StringLiteralValueWrapper(clean_block_string(interior.as_str())));
    }
    Err(cursor.expected(Expectation::Token(NonBracketTokenKind::StringLiteral)))
}

/// Reads an integer literal.
fn parse_integer_value(cursor: &mut ItemCursor, out: &mut ParseOutput, text: &str) -> (r: Result<
    IntegerValue,
    WithSpan<ParseError>,
>)
    requires
        old(cursor).wf(),
        nodes_in_text(text, old(cursor).nodes()),
    ensures
        r matches Err(e) ==> e.item != ParseError::EmptyLiteral,
        only_appends(old(out).view(), final(out).view()),
        adds_no_empty_literal(old(out).view(), final(out).view()),
        final(cursor).items == old(cursor).items,
        final(cursor).wf(),
        (
            match r {
                Ok(v) => Ok(v.0),
                Err(e) => Err(e),
            },
            final(cursor).cur(),
            final(out).view(),
        ) == s_integer(old(cursor).nodes(), old(cursor).cur(), old(out).view(), text),
{
    let ghost i = cursor.index();
    let location = cursor.require_token(
        out,
        NonBracketTokenKind::IntegerLiteral,
        IsographSemanticToken::Integer,
        Expectation::Token(NonBracketTokenKind::IntegerLiteral),
    )?;
    proof {
        lemma_token_in_text(text, old(cursor).nodes(), i as int);
    }
    let digits = token_text(text, location);
    match parse_i64(digits.as_str()) {
        Some(value) => Ok(IntegerValue(value)),
        None => Err(WithSpan { item: ParseError::IntegerDoesNotFitI64, location }),
    }
}

/// Reads `true`, `false` or `null`.
fn parse_boolean_or_null(cursor: &mut ItemCursor, out: &mut ParseOutput, text: &str) -> (r: Result<
    NonConstantValue,
    WithSpan<ParseError>,
>)
    requires
        old(cursor).wf(),
        nodes_in_text(text, old(cursor).nodes()),
    ensures
        r matches Err(e) ==> e.item != ParseError::EmptyLiteral,
        only_appends(old(out).view(), final(out).view()),
        adds_no_empty_literal(old(out).view(), final(out).view()),
        final(cursor).items == old(cursor).items,
        final(cursor).wf(),
        (
            match r {
                Ok(v) => Ok(value_view(v)),
                Err(e) => Err(e),
            },
            final(cursor).cur(),
            final(out).view(),
        ) == s_boolean_or_null(old(cursor).nodes(), old(cursor).cur(), old(out).view(), text),
{
    let ghost i = cursor.index();
    let location = cursor.require_token(
        out,
        NonBracketTokenKind::Identifier,
        IsographSemanticToken::BooleanOrNull,
        Expectation::Token(NonBracketTokenKind::Identifier),
    )?;
    proof {
        lemma_token_in_text(text, old(cursor).nodes(), i as int);
    }
    let word = token_text(text, location);
    proof {
        reveal_strlit("true");
        reveal_strlit("false");
        reveal_strlit("null");
    }
    if text_is(word.as_str(), "true") {
        Ok(NonConstantValue::Boolean(BooleanValue(Boolean::True)))
    } else if text_is(word.as_str(), "false") {
        Ok(NonConstantValue::Boolean(BooleanValue(Boolean::False)))
    } else if text_is(word.as_str(), "null") {
        Ok(NonConstantValue::Null(NullValue))
    } else {
        Err(
            WithSpan {
                item: ParseError::expected(
                    Expectation::Value,
                    Found::Token(NonBracketTokenKind::Identifier),
                ),
                location,
            },
        )
    }
}

/// Reads a value.
pub fn parse_non_constant_value(cursor: &mut ItemCursor, out: &mut ParseOutput, text: &str) -> (r:
    Result<WithSpan<NonConstantValue>, WithSpan<ParseError>>)
    requires
        old(cursor).wf(),
        nodes_in_text(text, old(cursor).nodes()),
    ensures
        r matches Err(e) ==> e.item != ParseError::EmptyLiteral,
        only_appends(old(out).view(), final(out).view()),
        adds_no_empty_literal(old(out).view(), final(out).view()),
        final(cursor).items == old(cursor).items,
        final(cursor).wf(),
        (value_result_view(r), final(cursor).cur(), final(out).view()) == s_value(
            old(cursor).nodes(),
            old(cursor).cur(),
            old(out).view(),
            text,
        ),
    decreases nodes_size(old(cursor).nodes()), 2nat, 0nat,
{
    let start = cursor.span_start();
    let before = cursor.previous_end;
    let ghost i = cursor.index();
    let ghost items = cursor.nodes();
    let r: Result<NonConstantValue, WithSpan<ParseError>> = if cursor.at_token(
        NonBracketTokenKind::Dollar,
    ) {
        match parse_variable_name(cursor, out, text, Expectation::Token(NonBracketTokenKind::Dollar)) {
            Ok(usage) => Ok(NonConstantValue::Variable(VariableUse(usage))),
            Err(e) => Err(e),
        }
    } else if cursor.at_token(NonBracketTokenKind::StringLiteral) || cursor.at_token(
        NonBracketTokenKind::BlockStringLiteral,
    ) {
        match parse_string_literal(cursor, out, text) {
            Ok(s) => Ok(NonConstantValue::String(s)),
            Err(e) => Err(e),
        }
    } else if cursor.at_token(NonBracketTokenKind::IntegerLiteral) {
        match parse_integer_value(cursor, out, text) {
            Ok(v) => Ok(NonConstantValue::Integer(v)),
            Err(e) => Err(e),
        }
    } else if cursor.at_token(NonBracketTokenKind::Identifier) {
        parse_boolean_or_null(cursor, out, text)
    } else if cursor.at_group(BracketKind::Brace) {
        proof {
            lemma_group_in_text(text, items, i as int);
        }
        let item = cursor.commit(out, IsographSemanticToken::Brace);
        match &item.item {
            ChunkContentItem::Group(group) => {
                let entries = parse_object_entries(&group.children.item, out, text);
                out.record(IsographSemanticToken::Brace, group.closing.location);
                Ok(NonConstantValue::Object(ObjectLiteral(entries)))
            },
            ChunkContentItem::NonBracket(_) => Err(cursor.expected(Expectation::Value)),
        }
    } else if cursor.at_group(BracketKind::Bracket) {
        proof {
            lemma_group_in_text(text, items, i as int);
        }
        let item = cursor.commit(out, IsographSemanticToken::Bracket);
        match &item.item {
            ChunkContentItem::Group(group) => {
                let values = parse_list_values(&group.children.item, out, text);
                out.record(IsographSemanticToken::Bracket, group.closing.location);
                Ok(NonConstantValue::List(ListLiteral(values)))
            },
            ChunkContentItem::NonBracket(_) => Err(cursor.expected(Expectation::Value)),
        }
    } else {
        Err(cursor.expected(Expectation::Value))
    };
    match r {
        Ok(value) => Ok(WithSpan { item: value, location: cursor.span_since(start, before) }),
        Err(e) => Err(e),
    }
}

/// Reads `name: value`, the name with role `role`, `missing` expected where it should be.
fn parse_name_value(
    cursor: &mut ItemCursor,
    out: &mut ParseOutput,
    text: &str,
    role: IsographSemanticToken,
    missing: Expectation,
) -> (r: Result<(WithSpan<String>, WithSpan<NonConstantValue>), WithSpan<ParseError>>)
    requires
        old(cursor).wf(),
        nodes_in_text(text, old(cursor).nodes()),
    ensures
        r matches Err(e) ==> e.item != ParseError::EmptyLiteral,
        only_appends(old(out).view(), final(out).view()),
        adds_no_empty_literal(old(out).view(), final(out).view()),
        final(cursor).items == old(cursor).items,
        final(cursor).wf(),
        (
            match r {
                Ok(p) => Ok(
                    NameValueView {
                        name: WithSpan { item: p.0.item@, location: p.0.location },
                        value: spanned_value_view(p.1),
                    },
                ),
                Err(e) => Err(e),
            },
            final(cursor).cur(),
            final(out).view(),
        ) == s_name_value(old(cursor).nodes(), old(cursor).cur(), old(out).view(), text, role, missing),
    decreases nodes_size(old(cursor).nodes()), 3nat, 0nat,
{
    let ghost i = cursor.index();
    let location = cursor.require_token(out, NonBracketTokenKind::Identifier, role, missing)?;
    proof {
        lemma_token_in_text(text, old(cursor).nodes(), i as int);
    }
    let name = token_text(text, location);
    cursor.require_token(
        out,
        NonBracketTokenKind::Colon,
        IsographSemanticToken::Colon,
        Expectation::Token(NonBracketTokenKind::Colon),
    )?;
    let value = parse_non_constant_value(cursor, out, text)?;
    Ok((WithSpan { item: name, location }, value))
}

/// Reads an object entry.
pub fn parse_object_entry(cursor: &mut ItemCursor, out: &mut ParseOutput, text: &str) -> (r: Result<
    ObjectEntry,
    WithSpan<ParseError>,
>)
    requires
        old(cursor).wf(),
        nodes_in_text(text, old(cursor).nodes()),
    ensures
        r matches Err(e) ==> e.item != ParseError::EmptyLiteral,
        only_appends(old(out).view(), final(out).view()),
        adds_no_empty_literal(old(out).view(), final(out).view()),
        final(cursor).items == old(cursor).items,
        final(cursor).wf(),
        (
            match r {
                Ok(e) => Ok(entry_view(e)),
                Err(e) => Err(e),
            },
            final(cursor).cur(),
            final(out).view(),
        ) == s_name_value(
            old(cursor).nodes(),
            old(cursor).cur(),
            old(out).view(),
            text,
            IsographSemanticToken::ObjectKey,
            Expectation::ObjectEntry,
        ),
    decreases nodes_size(old(cursor).nodes()), 4nat, 0nat,
{
    let (name, value) = parse_name_value(
        cursor,
        out,
        text,
        IsographSemanticToken::ObjectKey,
        Expectation::ObjectEntry,
    )?;
    Ok(
        ObjectEntry {
            name: WithSpan { item: ValueKeyNameWrapper(name.item), location: name.location },
            value,
        },
    )
}

/// Reads an argument.
pub fn parse_argument(cursor: &mut ItemCursor, out: &mut ParseOutput, text: &str) -> (r: Result<
    Argument,
    WithSpan<ParseError>,
>)
    requires
        old(cursor).wf(),
        nodes_in_text(text, old(cursor).nodes()),
    ensures
        r matches Err(e) ==> e.item != ParseError::EmptyLiteral,
        only_appends(old(out).view(), final(out).view()),
        adds_no_empty_literal(old(out).view(), final(out).view()),
        final(cursor).items == old(cursor).items,
        final(cursor).wf(),
        (
            match r {
                Ok(a) => Ok(argument_view(a)),
                Err(e) => Err(e),
            },
            final(cursor).cur(),
            final(out).view(),
        ) == s_name_value(
            old(cursor).nodes(),
            old(cursor).cur(),
            old(out).view(),
            text,
            IsographSemanticToken::Argument,
            Expectation::Argument,
        ),
{
    let (name, value) = parse_name_value(
        cursor,
        out,
        text,
        IsographSemanticToken::Argument,
        Expectation::Argument,
    )?;
    Ok(
        Argument {
            name: WithSpan { item: ArgumentNameWrapper(name.item), location: name.location },
            value,
        },
    )
}

/// Reads each chunk of an object literal's interior as an entry.
pub fn parse_object_entries(level: &ChunkedLevel, out: &mut ParseOutput, text: &str) -> (slots: Vec<
    WithSpan<Slot<ObjectEntry, UnparsedChunkItems>>,
>)
    requires
        chunks_in_text(text, chunk_views_of(level.0@)),
    ensures
        only_appends(old(out).view(), final(out).view()),
        adds_no_empty_literal(old(out).view(), final(out).view()),
        (entry_slots_view(slots@), final(out).view()) == s_entries(
            chunk_views_of(level.0@),
            0,
            old(out).view(),
            text,
        ),
    decreases chunks_size(chunk_views_of(level.0@)), 5nat, 0nat,
{
    let ghost cs = chunk_views_of(level.0@);
    let ghost target = s_entries(cs, 0, out.view(), text);
    proof {
        lemma_chunk_views_of_len(level.0@);
    }
    let mut slots: Vec<WithSpan<Slot<ObjectEntry, UnparsedChunkItems>>> = Vec::new();
    let mut j: usize = 0;
    while j < level.0.len()
        invariant
            only_appends(old(out).view(), out.view()),
            adds_no_empty_literal(old(out).view(), out.view()),
            cs == chunk_views_of(level.0@),
            cs.len() == level.0@.len(),
            forall|k: int| 0 <= k < cs.len() ==> #[trigger] cs[k] == chunk_view_of(level.0@[k]),
            chunks_in_text(text, cs),
            j <= level.0.len(),
            target.0 == entry_slots_view(slots@) + s_entries(cs, j as int, out.view(), text).0,
            target.1 == s_entries(cs, j as int, out.view(), text).1,
        decreases level.0.len() - j,
    {
        proof {
            lemma_chunk_in_text(text, cs, j as int);
        }
        let ghost o = out.view();
        let chunk = &level.0[j];
        let mut cursor = ItemCursor::new(&chunk.item.contents);
        let start = cursor.span_start();
        let before = cursor.previous_end;
        let parsed = match parse_object_entry(&mut cursor, out, text) {
            Ok(entry) => Ok(WithSpan { item: entry, location: cursor.span_since(start, before) }),
            Err(e) => Err(e),
        };
        let (extra, location) = finish_chunk(
            &cursor,
            match &parsed {
                Ok(w) => Ok(w.location),
                Err(e) => Err(*e),
            },
            Expectation::Separator(BracketKind::Brace),
            out,
        );
        let slot = WithSpan {
            item: Slot {
                item: match parsed {
                    Ok(w) => Some(w),
                    Err(_) => None,
                },
                extra,
            },
            location,
        };
        proof {
            lemma_entry_slots_push(slots@, slot);
        }
        slots.push(slot);
        proof {
            let rest = s_entries(cs, j + 1, out.view(), text);
            assert(s_entries(cs, j as int, o, text).0 == seq![entry_slot_view(slot)] + rest.0);
            assert(target.0 =~= entry_slots_view(slots@) + rest.0);
        }
        j += 1;
    }
    slots
}

/// Reads each chunk of a list literal's interior as a value.
pub fn parse_list_values(level: &ChunkedLevel, out: &mut ParseOutput, text: &str) -> (slots: Vec<
    WithSpan<Slot<ListLiteralValue, UnparsedChunkItems>>,
>)
    requires
        chunks_in_text(text, chunk_views_of(level.0@)),
    ensures
        only_appends(old(out).view(), final(out).view()),
        adds_no_empty_literal(old(out).view(), final(out).view()),
        (list_slots_view(slots@), final(out).view()) == s_list_values(
            chunk_views_of(level.0@),
            0,
            old(out).view(),
            text,
        ),
    decreases chunks_size(chunk_views_of(level.0@)), 5nat, 0nat,
{
    let ghost cs = chunk_views_of(level.0@);
    let ghost target = s_list_values(cs, 0, out.view(), text);
    proof {
        lemma_chunk_views_of_len(level.0@);
    }
    let mut slots: Vec<WithSpan<Slot<ListLiteralValue, UnparsedChunkItems>>> = Vec::new();
    let mut j: usize = 0;
    while j < level.0.len()
        invariant
            only_appends(old(out).view(), out.view()),
            adds_no_empty_literal(old(out).view(), out.view()),
            cs == chunk_views_of(level.0@),
            cs.len() == level.0@.len(),
            forall|k: int| 0 <= k < cs.len() ==> #[trigger] cs[k] == chunk_view_of(level.0@[k]),
            chunks_in_text(text, cs),
            j <= level.0.len(),
            target.0 == list_slots_view(slots@) + s_list_values(cs, j as int, out.view(), text).0,
            target.1 == s_list_values(cs, j as int, out.view(), text).1,
        decreases level.0.len() - j,
    {
        proof {
            lemma_chunk_in_text(text, cs, j as int);
        }
        let ghost o = out.view();
        let chunk = &level.0[j];
        let mut cursor = ItemCursor::new(&chunk.item.contents);
        let start = cursor.span_start();
        let before = cursor.previous_end;
        let parsed = match parse_non_constant_value(&mut cursor, out, text) {
            Ok(value) => Ok(
                WithSpan {
                    item: ListLiteralValue { value },
                    location: cursor.span_since(start, before),
                },
            ),
            Err(e) => Err(e),
        };
        let (extra, location) = finish_chunk(
            &cursor,
            match &parsed {
                Ok(w) => Ok(w.location),
                Err(e) => Err(*e),
            },
            Expectation::Separator(BracketKind::Bracket),
            out,
        );
        let slot = WithSpan {
            item: Slot {
                item: match parsed {
                    Ok(w) => Some(w),
                    Err(_) => None,
                },
                extra,
            },
            location,
        };
        proof {
            lemma_list_slots_push(slots@, slot);
        }
        slots.push(slot);
        proof {
            let rest = s_list_values(cs, j + 1, out.view(), text);
            assert(s_list_values(cs, j as int, o, text).0 == seq![list_slot_view(slot)] + rest.0);
            assert(target.0 =~= list_slots_view(slots@) + rest.0);
        }
        j += 1;
    }
    slots
}

/// Reads each chunk of an argument list's interior as an argument.
pub fn parse_arguments(level: &ChunkedLevel, out: &mut ParseOutput, text: &str) -> (slots: Vec<
    WithSpan<Slot<Argument, UnparsedChunkItems>>,
>)
    requires
        chunks_in_text(text, chunk_views_of(level.0@)),
    ensures
        only_appends(old(out).view(), final(out).view()),
        adds_no_empty_literal(old(out).view(), final(out).view()),
        (argument_slots_view(slots@), final(out).view()) == s_arguments(
            chunk_views_of(level.0@),
            0,
            old(out).view(),
            text,
        ),
{
    let ghost cs = chunk_views_of(level.0@);
    let ghost target = s_arguments(cs, 0, out.view(), text);
    proof {
        lemma_chunk_views_of_len(level.0@);
    }
    let mut slots: Vec<WithSpan<Slot<Argument, UnparsedChunkItems>>> = Vec::new();
    let mut j: usize = 0;
    while j < level.0.len()
        invariant
            only_appends(old(out).view(), out.view()),
            adds_no_empty_literal(old(out).view(), out.view()),
            cs == chunk_views_of(level.0@),
            cs.len() == level.0@.len(),
            forall|k: int| 0 <= k < cs.len() ==> #[trigger] cs[k] == chunk_view_of(level.0@[k]),
            chunks_in_text(text, cs),
            j <= level.0.len(),
            target.0 == argument_slots_view(slots@) + s_arguments(cs, j as int, out.view(), text).0,
            target.1 == s_arguments(cs, j as int, out.view(), text).1,
        decreases level.0.len() - j,
    {
        proof {
            lemma_chunk_in_text(text, cs, j as int);
        }
        let ghost o = out.view();
        let chunk = &level.0[j];
        let mut cursor = ItemCursor::new(&chunk.item.contents);
        let start = cursor.span_start();
        let before = cursor.previous_end;
        let parsed = match parse_argument(&mut cursor, out, text) {
            Ok(argument) => Ok(WithSpan { item: argument, location: cursor.span_since(start, before) }),
            Err(e) => Err(e),
        };
        let (extra, location) = finish_chunk(
            &cursor,
            match &parsed {
                Ok(w) => Ok(w.location),
                Err(e) => Err(*e),
            },
            Expectation::Separator(BracketKind::Parenthesis),
            out,
        );
        let slot = WithSpan {
            item: Slot {
                item: match parsed {
                    Ok(w) => Some(w),
                    Err(_) => None,
                },
                extra,
            },
            location,
        };
        proof {
            lemma_argument_slots_push(slots@, slot);
        }
        slots.push(slot);
        proof {
            let rest = s_arguments(cs, j + 1, out.view(), text);
            assert(s_arguments(cs, j as int, o, text).0 == seq![argument_slot_view(slot)] + rest.0);
            assert(target.0 =~= argument_slots_view(slots@) + rest.0);
        }
        j += 1;
    }
    slots
}

/// Reads an argument list when the next item is a parenthesized group.
pub fn consume_argument_list(cursor: &mut ItemCursor, out: &mut ParseOutput, text: &str) -> (r:
    Option<WithSpan<ArgumentList>>)
    requires
        old(cursor).wf(),
        nodes_in_text(text, old(cursor).nodes()),
    ensures
        only_appends(old(out).view(), final(out).view()),
        adds_no_empty_literal(old(out).view(), final(out).view()),
        final(cursor).items == old(cursor).items,
        final(cursor).wf(),
        (argument_list_view(r), final(cursor).cur(), final(out).view()) == s_argument_list(
            old(cursor).nodes(),
            old(cursor).cur(),
            old(out).view(),
            text,
        ),
{
    if !cursor.at_group(BracketKind::Parenthesis) {
        return None;
    }
    let ghost i = cursor.index();
    proof {
        lemma_group_in_text(text, old(cursor).nodes(), i as int);
    }
    let item = cursor.commit(out, IsographSemanticToken::Parenthesis);
    match &item.item {
        ChunkContentItem::Group(group) => {
            let arguments = parse_arguments(&group.children.item, out, text);
            out.record(IsographSemanticToken::Parenthesis, group.closing.location);
            Some(WithSpan { item: ArgumentList(arguments), location: item.location })
        },
        ChunkContentItem::NonBracket(_) => None,
    }
}

} // verus!
