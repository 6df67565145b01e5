use vstd::prelude::*;

use crate::arguments::{
    argument_list_view, consume_argument_list, lemma_chunk_in_text, lemma_group_in_text,
    lemma_token_in_text, name_of, s_argument_list, ArgumentList, NameValueView,
};
use crate::chunk::{
    chunk_view_of, chunk_views_of, lemma_chunk_views_of_len, ChunkContentItem, ChunkNode,
    ChunkView, ChunkedLevel,
};
use crate::chunk_stream::{
    cnode_location, commit, next_is_group, next_is_token, record, s_require, span_start,
    start_cur, Cur, ItemCursor, Out, ParseOutput, adds_no_empty_literal, only_appends,
};
use crate::directives::{
    consume_directives, directive_list_view, s_directives, DirectiveView,
    IsographFieldDirectiveList,
};
use crate::leftover::{chunks_size, lemma_chunks_size_elem, lemma_nodes_size_elem, nodes_size};
use crate::non_bracket_token::{BracketKind, NonBracketTokenKind};
use crate::parse_error::{Expectation, ParseError};
use crate::semantic_token::IsographSemanticToken;
use crate::slot::{
    chunks_in_text, finish_chunk, nodes_in_text, s_slot, spanned, token_text, unparsed_view, Slot,
    SlotView, UnparsedChunkItems,
};
use crate::span::WithSpan;

verus! {

/// `{ ... }` after a declaration or a selection: one slot per chunk.
#[derive(Debug, PartialEq, Eq)]
pub struct SelectionSet(pub Vec<WithSpan<Slot<Selection, UnparsedChunkItems>>>);

/// `alias: name(args) @directives { ... }`, everything after the name optional.
#[derive(Debug, PartialEq, Eq)]
pub struct Selection {
    pub reader_alias: Option<WithSpan<SelectionNameWrapper>>,
    pub name: WithSpan<SelectionNameWrapper>,
    pub arguments: Option<WithSpan<ArgumentList>>,
    pub directive_set: Option<WithSpan<IsographFieldDirectiveList>>,
    pub selection_set: Option<WithSpan<SelectionSet>>,
}

#[derive(Clone, Debug, PartialEq, Eq)]
pub struct SelectionNameWrapper(pub String);

/// The abstract value of a selection.
pub struct SelectionView {
    pub reader_alias: Option<WithSpan<Seq<char>>>,
    pub name: WithSpan<Seq<char>>,
    pub arguments: Option<WithSpan<Seq<WithSpan<SlotView<NameValueView>>>>>,
    pub directive_set: Option<WithSpan<Seq<WithSpan<DirectiveView>>>>,
    pub selection_set: Option<WithSpan<Seq<WithSpan<SlotView<SelectionView>>>>>,
}

pub open spec fn selection_name_view(n: WithSpan<SelectionNameWrapper>) -> WithSpan<Seq<char>> {
    WithSpan { item: n.item.0@, location: n.location }
}

pub open spec fn selection_view(s: Selection) -> SelectionView
    decreases s,
{
    SelectionView {
        reader_alias: match s.reader_alias {
            Some(a) => Some(selection_name_view(a)),
            None => None,
        },
        name: selection_name_view(s.name),
        arguments: argument_list_view(s.arguments),
        directive_set: directive_list_view(s.directive_set),
        selection_set: selection_set_view(s.selection_set),
    }
}

pub open spec fn selection_set_view(o: Option<WithSpan<SelectionSet>>) -> Option<
    WithSpan<Seq<WithSpan<SlotView<SelectionView>>>>,
>
    decreases o,
{
    match o {
        Some(w) => Some(WithSpan { item: selection_slots_view(w.item.0@), location: w.location }),
        None => None,
    }
}

pub open spec fn selection_slot_view(s: WithSpan<Slot<Selection, UnparsedChunkItems>>) -> WithSpan<
    SlotView<SelectionView>,
>
    decreases s,
{
    WithSpan {
        item: SlotView {
            item: match s.item.item {
                Some(w) => Some(WithSpan { item: selection_view(w.item), location: w.location }),
                None => None,
            },
            extra: unparsed_view(s.item.extra),
        },
        location: s.location,
    }
}

pub open spec fn selection_slots_view(s: Seq<WithSpan<Slot<Selection, UnparsedChunkItems>>>) -> Seq<
    WithSpan<SlotView<SelectionView>>,
>
    decreases s,
{
    if s.len() == 0 {
        seq![]
    } else {
        selection_slots_view(s.subrange(0, s.len() - 1)).push(selection_slot_view(s[s.len() - 1]))
    }
}

proof fn lemma_selection_slots_push(
    s: Seq<WithSpan<Slot<Selection, UnparsedChunkItems>>>,
    x: WithSpan<Slot<Selection, UnparsedChunkItems>>,
)
    ensures
        selection_slots_view(s.push(x)) == selection_slots_view(s).push(selection_slot_view(x)),
{
    assert(s.push(x).subrange(0, s.len() as int) =~= s);
}

/// Reading what follows a selection's name: arguments, directives, a selection set.
pub open spec fn s_selection_rest(
    items: Seq<ChunkNode>,
    cur: Cur,
    out: Out,
    text: &str,
    reader_alias: Option<WithSpan<Seq<char>>>,
    name: WithSpan<Seq<char>>,
) -> (Result<SelectionView, WithSpan<ParseError>>, Cur, Out)
    decreases nodes_size(items), 3nat, 0nat,
{
    let a = s_argument_list(items, cur, out, text);
    let d = s_directives(items, a.1, a.2, text);
    match d.0 {
        Err(e) => (Err(e), d.1, d.2),
        Ok(directive_set) => {
            let s = s_selection_set(items, d.1, d.2, text);
            (
                Ok(
                    SelectionView {
                        reader_alias,
                        name,
                        arguments: a.0,
                        directive_set,
                        selection_set: s.0,
                    },
                ),
                s.1,
                s.2,
            )
        },
    }
}

/// Reading a selection: a field name, or `alias: name`, then the rest.
pub open spec fn s_selection(items: Seq<ChunkNode>, cur: Cur, out: Out, text: &str) -> (
    Result<SelectionView, WithSpan<ParseError>>,
    Cur,
    Out,
)
    decreases nodes_size(items), 4nat, 0nat,
{
    let first = s_require(
        items,
        cur,
        out,
        NonBracketTokenKind::Identifier,
        IsographSemanticToken::FieldName,
        Expectation::Selection,
    );
    match first.0 {
        Err(e) => (Err(e), first.1, first.2),
        Ok(f) => if next_is_token(items, first.1, NonBracketTokenKind::Colon) {
            let c = commit(items, first.1, first.2, IsographSemanticToken::Colon);
            let n = s_require(
                items,
                c.0,
                c.1,
                NonBracketTokenKind::Identifier,
                IsographSemanticToken::FieldName,
                Expectation::Token(NonBracketTokenKind::Identifier),
            );
            match n.0 {
                Err(e) => (Err(e), n.1, n.2),
                Ok(nm) => s_selection_rest(items, n.1, n.2, text, Some(name_of(text, f)), name_of(text, nm)),
            }
        } else {
            s_selection_rest(items, first.1, first.2, text, None, name_of(text, f))
        },
    }
}

/// Reading a selection set when the next item is a brace group; nothing otherwise.
pub open spec fn s_selection_set(items: Seq<ChunkNode>, cur: Cur, out: Out, text: &str) -> (
    Option<WithSpan<Seq<WithSpan<SlotView<SelectionView>>>>>,
    Cur,
    Out,
)
    decreases nodes_size(items), 2nat, 0nat,
{
    if next_is_group(items, cur, BracketKind::Brace) {
        let n = items[cur.index as int];
        let c = commit(items, cur, out, IsographSemanticToken::Brace);
        proof {
            lemma_nodes_size_elem(items, cur.index as int);
        }
        let inside = s_selections(n->children, 0, c.1, text);
        (
            Some(WithSpan { item: inside.0, location: cnode_location(n) }),
            c.0,
            record(inside.1, IsographSemanticToken::Brace, n->closing.location),
        )
    } else {
        (None, cur, out)
    }
}

/// The slots of a selection set's chunks, from the `j`-th on.
pub open spec fn s_selections(cs: Seq<ChunkView>, j: int, out: Out, text: &str) -> (
    Seq<WithSpan<SlotView<SelectionView>>>,
    Out,
)
    decreases chunks_size(cs), 5nat, cs.len() - j,
{
    if 0 <= j < cs.len() {
        proof {
            lemma_chunks_size_elem(cs, j);
        }
        let items = cs[j].contents;
        let cur = start_cur(items);
        let p = s_selection(items, cur, out, text);
        let slot = s_slot(
            items,
            spanned(p.0, span_start(items, cur), cur.previous_end, p.1),
            p.1,
            p.2,
            Expectation::Separator(BracketKind::Brace),
        );
        let rest = s_selections(cs, j + 1, slot.1, text);
        (seq![slot.0] + rest.0, rest.1)
    } else {
        (seq![], out)
    }
}

/// Reads a selection.
pub fn parse_selection(cursor: &mut ItemCursor, out: &mut ParseOutput, text: &str) -> (r: Result<
    Selection,
    WithSpan<ParseError>,
>)
    requires
        old(cursor).wf(),
        nodes_in_text(text, old(cursor).nodes()),
    ensures
        r matches Err(e) ==> e.item != ParseError::EmptyLiteral,
        only_appends(old(out).view(), final(out).view()),
        adds_no_empty_literal(old(out).view(), final(out).view()),
        final(cursor).items == old(cursor).items,
        final(cursor).wf(),
        (
            match r {
                Ok(s) => Ok(selection_view(s)),
                Err(e) => Err(e),
            },
            final(cursor).cur(),
            final(out).view(),
        ) == s_selection(old(cursor).nodes(), old(cursor).cur(), old(out).view(), text),
    decreases nodes_size(old(cursor).nodes()), 4nat, 0nat,
{
    let ghost i = cursor.index();
    let first = cursor.require_token(
        out,
        NonBracketTokenKind::Identifier,
        IsographSemanticToken::FieldName,
        Expectation::Selection,
    )?;
    proof {
        lemma_token_in_text(text, old(cursor).nodes(), i as int);
    }
    let first_name = WithSpan { item: SelectionNameWrapper(token_text(text, first)), location: first };
    let (reader_alias, name) = if cursor.at_token(NonBracketTokenKind::Colon) {
        cursor.commit(out, IsographSemanticToken::Colon);
        let ghost k = cursor.index();
        let location = cursor.require_token(
            out,
            NonBracketTokenKind::Identifier,
            IsographSemanticToken::FieldName,
            Expectation::Token(NonBracketTokenKind::Identifier),
        )?;
        proof {
            lemma_token_in_text(text, old(cursor).nodes(), k as int);
        }
        (
            Some(first_name),
            WithSpan { item: SelectionNameWrapper(token_text(text, location)), location },
        )
    } else {
        (None, first_name)
    };
    let arguments = consume_argument_list(cursor, out, text);
    let directive_set = consume_directives(cursor, out, text)?;
    let selection_set = consume_selection_set(cursor, out, text);
    Ok(Selection { reader_alias, name, arguments, directive_set, selection_set })
}

/// Reads each chunk of a selection set's interior as a selection.
pub fn parse_selections(level: &ChunkedLevel, out: &mut ParseOutput, text: &str) -> (slots: Vec<
    WithSpan<Slot<Selection, UnparsedChunkItems>>,
>)
    requires
        chunks_in_text(text, chunk_views_of(level.0@)),
    ensures
        only_appends(old(out).view(), final(out).view()),
        adds_no_empty_literal(old(out).view(), final(out).view()),
        (selection_slots_view(slots@), final(out).view()) == s_selections(
            chunk_views_of(level.0@),
            0,
            old(out).view(),
            text,
        ),
    decreases chunks_size(chunk_views_of(level.0@)), 5nat, 0nat,
{
    let ghost cs = chunk_views_of(level.0@);
    let ghost target = s_selections(cs, 0, out.view(), text);
    proof {
        lemma_chunk_views_of_len(level.0@);
    }
    let mut slots: Vec<WithSpan<Slot<Selection, UnparsedChunkItems>>> = Vec::new();
    let mut j: usize = 0;
    while j < level.0.len()
        invariant
            only_appends(old(out).view(), out.view()),
            adds_no_empty_literal(old(out).view(), out.view()),
            cs == chunk_views_of(level.0@),
            cs.len() == level.0@.len(),
            forall|k: int| 0 <= k < cs.len() ==> #[trigger] cs[k] == chunk_view_of(level.0@[k]),
            chunks_in_text(text, cs),
            j <= level.0.len(),
            target.0 == selection_slots_view(slots@) + s_selections(cs, j as int, out.view(), text).0,
            target.1 == s_selections(cs, j as int, out.view(), text).1,
        decreases level.0.len() - j,
    {
        proof {
            lemma_chunk_in_text(text, cs, j as int);
        }
        let ghost o = out.view();
        let chunk = &level.0[j];
        let mut cursor = ItemCursor::new(&chunk.item.contents);
        let start = cursor.span_start();
        let before = cursor.previous_end;
        let parsed = match parse_selection(&mut cursor, out, text) {
            Ok(selection) => Ok(WithSpan { item: selection, location: cursor.span_since(start, before) }),
            Err(e) => Err(e),
        };
        let (extra, location) = finish_chunk(
            &cursor,
            match &parsed {
                Ok(w) => Ok(w.location),
                Err(e) => Err(*e),
            },
            Expectation::Separator(BracketKind::Brace),
            out,
        );
        let slot = WithSpan {
            item: Slot {
                item: match parsed {
                    Ok(w) => Some(w),
                    Err(_) => None,
                },
                extra,
            },
            location,
        };
        proof {
            lemma_selection_slots_push(slots@, slot);
        }
        slots.push(slot);
        proof {
            let rest = s_selections(cs, j + 1, out.view(), text);
            assert(s_selections(cs, j as int, o, text).0 == seq![selection_slot_view(slot)] + rest.0);
            assert(target.0 =~= selection_slots_view(slots@) + rest.0);
        }
        j += 1;
    }
    slots
}

/// Reads a selection set when the next item is a brace group.
pub fn consume_selection_set(cursor: &mut ItemCursor, out: &mut ParseOutput, text: &str) -> (r:
    Option<WithSpan<SelectionSet>>)
    requires
        old(cursor).wf(),
        nodes_in_text(text, old(cursor).nodes()),
    ensures
        only_appends(old(out).view(), final(out).view()),
        adds_no_empty_literal(old(out).view(), final(out).view()),
        final(cursor).items == old(cursor).items,
        final(cursor).wf(),
        (selection_set_view(r), final(cursor).cur(), final(out).view()) == s_selection_set(
            old(cursor).nodes(),
            old(cursor).cur(),
            old(out).view(),
            text,
        ),
    decreases nodes_size(old(cursor).nodes()), 2nat, 0nat,
{
    if !cursor.at_group(BracketKind::Brace) {
        return None;
    }
    let ghost i = cursor.index();
    proof {
        lemma_group_in_text(text, old(cursor).nodes(), i as int);
    }
    let item = cursor.commit(out, IsographSemanticToken::Brace);
    match &item.item {
        ChunkContentItem::Group(group) => {
            let selections = parse_selections(&group.children.item, out, text);
            out.record(IsographSemanticToken::Brace, group.closing.location);
            Some(WithSpan { item: SelectionSet(selections), location: item.location })
        },
        ChunkContentItem::NonBracket(_) => None,
    }
}

} // verus!
