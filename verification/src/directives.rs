use vstd::prelude::*;

use crate::arguments::{
    argument_list_view, consume_argument_list, lemma_token_in_text, name_of, s_argument_list,
    ArgumentList, NameValueView,
};
use crate::chunk::ChunkNode;
use crate::chunk_stream::{
    cnode_location, commit, next_is_token, s_require, span_since, span_start, Cur, ItemCursor, Out,
    ParseOutput, adds_no_empty_literal, only_appends,
};
use crate::non_bracket_token::NonBracketTokenKind;
use crate::parse_error::{Expectation, ParseError};
use crate::semantic_token::IsographSemanticToken;
use crate::slot::{nodes_in_text, token_text, SlotView};
use crate::span::{Span, WithSpan};

verus! {

/// The directives after a declaration or a selection, `@name(args)` each.
#[derive(Debug, PartialEq, Eq)]
pub struct IsographFieldDirectiveList(pub Vec<WithSpan<IsographFieldDirective>>);

/// `@name`, with its arguments if it has any.
#[derive(Debug, PartialEq, Eq)]
pub struct IsographFieldDirective {
    pub name: WithSpan<IsographDirectiveNameWrapper>,
    pub arguments: Option<WithSpan<ArgumentList>>,
}

#[derive(Clone, Debug, PartialEq, Eq)]
pub struct IsographDirectiveNameWrapper(pub String);

/// The abstract value of a directive.
pub struct DirectiveView {
    pub name: WithSpan<Seq<char>>,
    pub arguments: Option<WithSpan<Seq<WithSpan<SlotView<NameValueView>>>>>,
}

pub open spec fn directive_view(d: WithSpan<IsographFieldDirective>) -> WithSpan<DirectiveView> {
    WithSpan {
        item: DirectiveView {
            name: WithSpan { item: d.item.name.item.0@, location: d.item.name.location },
            arguments: argument_list_view(d.item.arguments),
        },
        location: d.location,
    }
}

pub open spec fn directives_view(ds: Seq<WithSpan<IsographFieldDirective>>) -> Seq<
    WithSpan<DirectiveView>,
> {
    ds.map_values(|d: WithSpan<IsographFieldDirective>| directive_view(d))
}

/// The abstract value of an optional directive list.
pub open spec fn directive_list_view(l: Option<WithSpan<IsographFieldDirectiveList>>) -> Option<
    WithSpan<Seq<WithSpan<DirectiveView>>>,
> {
    match l {
        Some(w) => Some(WithSpan { item: directives_view(w.item.0@), location: w.location }),
        None => None,
    }
}

/// Reading a directive after its `@`: its name, then its arguments if a parenthesized group
/// follows; spanned from the `@` to the end of what it read.
pub open spec fn s_directive_after_at(
    items: Seq<ChunkNode>,
    cur: Cur,
    out: Out,
    text: &str,
    at: Span,
) -> (Result<WithSpan<DirectiveView>, WithSpan<ParseError>>, Cur, Out) {
    let n = s_require(
        items,
        cur,
        out,
        NonBracketTokenKind::Identifier,
        IsographSemanticToken::DirectiveName,
        Expectation::Token(NonBracketTokenKind::Identifier),
    );
    match n.0 {
        Err(e) => (Err(e), n.1, n.2),
        Ok(name) => {
            let a = s_argument_list(items, n.1, n.2, text);
            let end = match a.0 {
                Some(list) => list.location.end,
                None => name.end,
            };
            (
                Ok(
                    WithSpan {
                        item: DirectiveView { name: name_of(text, name), arguments: a.0 },
                        location: Span { start: at.start, end },
                    },
                ),
                a.1,
                a.2,
            )
        },
    }
}

/// Reading directives while the next item is `@`, after those in `read`.
pub open spec fn s_directive_loop(
    items: Seq<ChunkNode>,
    cur: Cur,
    out: Out,
    text: &str,
    read: Seq<WithSpan<DirectiveView>>,
) -> (Result<Seq<WithSpan<DirectiveView>>, WithSpan<ParseError>>, Cur, Out)
    decreases items.len() - cur.index,
{
    if next_is_token(items, cur, NonBracketTokenKind::At) {
        let c = commit(items, cur, out, IsographSemanticToken::DirectiveName);
        let d = s_directive_after_at(items, c.0, c.1, text, cnode_location(items[cur.index as int]));
        match d.0 {
            Err(e) => (Err(e), d.1, d.2),
            Ok(directive) => s_directive_loop(items, d.1, d.2, text, read.push(directive)),
        }
    } else {
        (Ok(read), cur, out)
    }
}

/// Reading the directives when the next item is `@`; nothing otherwise.
pub open spec fn s_directives(items: Seq<ChunkNode>, cur: Cur, out: Out, text: &str) -> (
    Result<Option<WithSpan<Seq<WithSpan<DirectiveView>>>>, WithSpan<ParseError>>,
    Cur,
    Out,
) {
    if !next_is_token(items, cur, NonBracketTokenKind::At) {
        (Ok(None), cur, out)
    } else {
        let l = s_directive_loop(items, cur, out, text, seq![]);
        match l.0 {
            Err(e) => (Err(e), l.1, l.2),
            Ok(ds) => (
                Ok(
                    Some(
                        WithSpan {
                            item: ds,
                            location: span_since(span_start(items, cur), cur.previous_end, l.1),
                        },
                    ),
                ),
                l.1,
                l.2,
            ),
        }
    }
}

/// Reads a directive after its `@`, which is at `at`.
fn parse_directive_after_at(cursor: &mut ItemCursor, out: &mut ParseOutput, text: &str, at: Span) -> (r:
    Result<WithSpan<IsographFieldDirective>, WithSpan<ParseError>>)
    requires
        old(cursor).wf(),
        nodes_in_text(text, old(cursor).nodes()),
    ensures
        r matches Err(e) ==> e.item != ParseError::EmptyLiteral,
        only_appends(old(out).view(), final(out).view()),
        adds_no_empty_literal(old(out).view(), final(out).view()),
        final(cursor).items == old(cursor).items,
        final(cursor).wf(),
        (
            match r {
                Ok(d) => Ok(directive_view(d)),
                Err(e) => Err(e),
            },
            final(cursor).cur(),
            final(out).view(),
        ) == s_directive_after_at(old(cursor).nodes(), old(cursor).cur(), old(out).view(), text, at),
{
    let ghost i = cursor.index();
    let location = cursor.require_token(
        out,
        NonBracketTokenKind::Identifier,
        IsographSemanticToken::DirectiveName,
        Expectation::Token(NonBracketTokenKind::Identifier),
    )?;
    proof {
        lemma_token_in_text(text, old(cursor).nodes(), i as int);
    }
    let name = token_text(text, location);
    let arguments = consume_argument_list(cursor, out, text);
    let end = match &arguments {
        Some(list) => list.location.end,
        None => location.end,
    };
    Ok(
        WithSpan {
            item: IsographFieldDirective {
                name: WithSpan { item: IsographDirectiveNameWrapper(name), location },
                arguments,
            },
            location: Span::new(at.start, end),
        },
    )
}

/// Reads the directives when the next item is `@`.
pub fn consume_directives(cursor: &mut ItemCursor, out: &mut ParseOutput, text: &str) -> (r: Result<
    Option<WithSpan<IsographFieldDirectiveList>>,
    WithSpan<ParseError>,
>)
    requires
        old(cursor).wf(),
        nodes_in_text(text, old(cursor).nodes()),
    ensures
        r matches Err(e) ==> e.item != ParseError::EmptyLiteral,
        only_appends(old(out).view(), final(out).view()),
        adds_no_empty_literal(old(out).view(), final(out).view()),
        final(cursor).items == old(cursor).items,
        final(cursor).wf(),
        (
            match r {
                Ok(l) => Ok(directive_list_view(l)),
                Err(e) => Err(e),
            },
            final(cursor).cur(),
            final(out).view(),
        ) == s_directives(old(cursor).nodes(), old(cursor).cur(), old(out).view(), text),
{
    if !cursor.at_token(NonBracketTokenKind::At) {
        return Ok(None);
    }
    let ghost items = cursor.nodes();
    let ghost target = s_directive_loop(items, cursor.cur(), out.view(), text, seq![]);
    let start = cursor.span_start();
    let before = cursor.previous_end;
    let mut directives: Vec<WithSpan<IsographFieldDirective>> = Vec::new();
    proof {
        assert(directives_view(directives@) =~= seq![]);
    }
    while cursor.at_token(NonBracketTokenKind::At)
        invariant
            only_appends(old(out).view(), out.view()),
            adds_no_empty_literal(old(out).view(), out.view()),
            cursor.wf(),
            cursor.items == old(cursor).items,
            items == cursor.nodes(),
            nodes_in_text(text, items),
            target == s_directive_loop(items, cursor.cur(), out.view(), text, directives_view(directives@)),
            target == s_directive_loop(items, old(cursor).cur(), old(out).view(), text, seq![]),
            next_is_token(items, old(cursor).cur(), NonBracketTokenKind::At),
            items == old(cursor).nodes(),
            start == span_start(items, old(cursor).cur()),
            before == old(cursor).cur().previous_end,
        decreases items.len() - cursor.index(),
    {
        let ghost i = cursor.index();
        let at = cursor.commit(out, IsographSemanticToken::DirectiveName).location;
        match parse_directive_after_at(cursor, out, text, at) {
            Ok(directive) => {
                proof {
                    assert(directives_view(directives@.push(directive)) =~= directives_view(
                        directives@,
                    ).push(directive_view(directive)));
                }
                directives.push(directive);
            },
            Err(e) => {
                return Err(e);
            },
        }
    }
    Ok(
        Some(
            WithSpan {
                item: IsographFieldDirectiveList(directives),
                location: cursor.span_since(start, before),
            },
        ),
    )
}

} // verus!
