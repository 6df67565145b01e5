use vstd::prelude::*;

use crate::chunk::{
    chunk_nodes_of, chunk_view_of, first_comma, Chunk, ChunkContentItem, ChunkNode, ChunkView,
};
use crate::chunk_stream::{
    cnode_found, cnode_location, lemma_contents_view, report, Cur, ItemCursor,
    Out, ParseOutput, adds_no_empty_literal, only_appends,
};
use crate::leftover::{
    chunks_size, unread_items_from, fill_chunks_from, fill_items_from, fill_nodes_from, fill_token,
    lemma_chunks_size_elem, lemma_nodes_size_elem, node_size, nodes_size
};
use crate::non_bracket_token::NonBracketTokenKind;
use crate::nonempty_lists::{content_items_held, new_content_items, push_content_item};
use crate::parse_error::{Expectation, ExpectedFound, Found, ParseError};
use crate::semantic_token::IsographSemanticToken;
use crate::span::{Span, WithSpan};
use crate::text::{span_in_text, span_text, text_of};

verus! {

/// Whether a token is a range of whole characters of the text, as the lexer gives it: a
/// string literal at least has its two quotes, a block string its six.
pub open spec fn token_fits(text: &str, kind: NonBracketTokenKind, location: Span) -> bool {
    &&& span_in_text(text, location)
    &&& kind == NonBracketTokenKind::StringLiteral ==> span_text(text, location).len() >= 2
    &&& kind == NonBracketTokenKind::BlockStringLiteral ==> span_text(text, location).len() >= 6
}

/// Whether every token under a content item fits the text.
pub open spec fn node_in_text(text: &str, n: ChunkNode) -> bool
    decreases node_size(n), 0nat,
{
    match n {
        ChunkNode::Token { kind, location } => token_fits(text, kind, location),
        ChunkNode::Group { children, .. } => chunks_in_text_from(text, children, 0),
    }
}

/// Whether every token under content items, from the `i`-th on, fits the text.
pub open spec fn nodes_in_text_from(text: &str, ns: Seq<ChunkNode>, i: int) -> bool
    decreases nodes_size(ns), ns.len() - i,
{
    if 0 <= i < ns.len() {
        proof {
            lemma_nodes_size_elem(ns, i);
        }
        node_in_text(text, ns[i]) && nodes_in_text_from(text, ns, i + 1)
    } else {
        true
    }
}

/// Whether every token of chunks, from the `j`-th on, fits the text.
pub open spec fn chunks_in_text_from(text: &str, cs: Seq<ChunkView>, j: int) -> bool
    decreases chunks_size(cs), cs.len() - j,
{
    if 0 <= j < cs.len() {
        proof {
            lemma_chunks_size_elem(cs, j);
        }
        nodes_in_text_from(text, cs[j].contents, 0) && chunks_in_text_from(text, cs, j + 1)
    } else {
        true
    }
}

/// Whether every token under some content items fits the text.
pub open spec fn nodes_in_text(text: &str, ns: Seq<ChunkNode>) -> bool {
    nodes_in_text_from(text, ns, 0)
}

/// Whether every token of some chunks fits the text.
pub open spec fn chunks_in_text(text: &str, cs: Seq<ChunkView>) -> bool {
    chunks_in_text_from(text, cs, 0)
}

proof fn lemma_nodes_in_text_from(text: &str, ns: Seq<ChunkNode>, k: int, i: int)
    requires
        nodes_in_text_from(text, ns, k),
        0 <= k <= i < ns.len(),
    ensures
        node_in_text(text, ns[i]),
    decreases i - k,
{
    if k < i {
        lemma_nodes_in_text_from(text, ns, k + 1, i);
    }
}

proof fn lemma_chunks_in_text_from(text: &str, cs: Seq<ChunkView>, k: int, j: int)
    requires
        chunks_in_text_from(text, cs, k),
        0 <= k <= j < cs.len(),
    ensures
        nodes_in_text(text, cs[j].contents),
    decreases j - k,
{
    if k < j {
        lemma_chunks_in_text_from(text, cs, k + 1, j);
    }
}

/// A content item of items whose tokens fit the text has its tokens fit too.
pub proof fn lemma_node_in_text(text: &str, ns: Seq<ChunkNode>, i: int)
    requires
        nodes_in_text(text, ns),
        0 <= i < ns.len(),
    ensures
        node_in_text(text, ns[i]),
{
    lemma_nodes_in_text_from(text, ns, 0, i);
}

/// A chunk of chunks whose tokens fit the text has its tokens fit too.
pub proof fn lemma_chunk_contents_in_text(text: &str, cs: Seq<ChunkView>, j: int)
    requires
        chunks_in_text(text, cs),
        0 <= j < cs.len(),
    ensures
        nodes_in_text(text, cs[j].contents),
{
    lemma_chunks_in_text_from(text, cs, 0, j);
}

pub proof fn lemma_nodes_size_all(ns: Seq<ChunkNode>)
    ensures
        forall|i: int| 0 <= i < ns.len() ==> #[trigger] node_size(ns[i]) <= nodes_size(ns),
{
    assert forall|i: int| 0 <= i < ns.len() implies #[trigger] node_size(ns[i]) <= nodes_size(ns) by {
        lemma_nodes_size_elem(ns, i);
    }
}

pub proof fn lemma_chunks_size_all(cs: Seq<ChunkView>)
    ensures
        forall|j: int| 0 <= j < cs.len() ==> #[trigger] nodes_size(cs[j].contents) < chunks_size(cs),
{
    assert forall|j: int| 0 <= j < cs.len() implies #[trigger] nodes_size(cs[j].contents) < chunks_size(cs) by {
        lemma_chunks_size_elem(cs, j);
    }
}

/// Unread or failed items from the chunk under parse.
#[derive(Debug, PartialEq, Eq)]
pub struct UnparsedChunkItems(pub nonempty::NonEmpty<WithSpan<ChunkContentItem>>);

/// The root chunks after the first.
#[derive(Debug, PartialEq, Eq)]
pub struct ExtraChunks(pub nonempty::NonEmpty<WithSpan<Chunk>>);

/// One parse attempt: an item, plus the items of the same chunk that were not read.
#[derive(Debug, PartialEq, Eq)]
pub struct Slot<T, E> {
    /// `Some` when the form parsed.
    pub item: Option<WithSpan<T>>,
    /// Unread or failed items after the item. Its span is tight to those items.
    pub extra: Option<WithSpan<E>>,
}

/// A level of one item.
#[derive(Debug, PartialEq, Eq)]
pub struct Singleton<T, E> {
    pub item: WithSpan<T>,
    pub extra_chunks: Option<WithSpan<E>>,
}

/// The abstract value of a slot: its item's value, and the content items it left unread.
pub struct SlotView<V> {
    pub item: Option<WithSpan<V>>,
    pub extra: Option<WithSpan<Seq<ChunkNode>>>,
}

/// The abstract value of the unread items of a slot.
pub open spec fn unparsed_view(extra: Option<WithSpan<UnparsedChunkItems>>) -> Option<
    WithSpan<Seq<ChunkNode>>,
> {
    match extra {
        Some(e) => Some(WithSpan { item: chunk_nodes_of(content_items_held(e.item.0)), location: e.location }),
        None => None,
    }
}

/// The span of some content items: from the first's start to the last's end.
pub open spec fn nodes_span(ns: Seq<ChunkNode>) -> Span {
    Span::spec_join(cnode_location(ns[0]), cnode_location(ns.last()))
}

/// The error of finding `n` where `e` was expected, at `n`.
pub open spec fn expected_at(e: Expectation, n: ChunkNode) -> WithSpan<ParseError> {
    WithSpan {
        item: ParseError::Expected(ExpectedFound { expected: e, found: cnode_found(n) }),
        location: cnode_location(n),
    }
}

/// The end of a chunk's parse: what is left unread, the slot's span, and the output. After an
/// item, unread items are an error at the first of them, and the slot covers the item through
/// the last; after a failure, the error is reported, the slot covers the whole chunk, and what
/// is left is the unread items, or the whole chunk when the parse read them all. Unread items
/// get their leftover roles either way.
pub open spec fn s_finish(
    contents: Seq<ChunkNode>,
    parsed: Result<Span, WithSpan<ParseError>>,
    cur: Cur,
    out: Out,
    leftover: Expectation,
) -> (Option<WithSpan<Seq<ChunkNode>>>, Span, Out) {
    match parsed {
        Ok(span) => if cur.index >= contents.len() {
            (None, span, out)
        } else {
            let rest = contents.skip(cur.index as int);
            let o = fill_nodes_from(
                contents,
                cur.index as int,
                report(out, expected_at(leftover, rest[0])),
            );
            let extra = nodes_span(rest);
            (Some(WithSpan { item: rest, location: extra }), Span::spec_join(span, extra), o)
        },
        Err(e) => {
            let o = fill_nodes_from(contents, cur.index as int, report(out, e));
            let unread = if cur.index < contents.len() {
                contents.skip(cur.index as int)
            } else {
                contents
            };
            (Some(WithSpan { item: unread, location: nodes_span(unread) }), nodes_span(contents), o)
        },
    }
}

/// The slot of a chunk's parse, from what the parse gave and where it left the reader.
pub open spec fn s_slot<V>(
    contents: Seq<ChunkNode>,
    parsed: Result<WithSpan<V>, WithSpan<ParseError>>,
    cur: Cur,
    out: Out,
    leftover: Expectation,
) -> (WithSpan<SlotView<V>>, Out) {
    let f = s_finish(
        contents,
        match parsed {
            Ok(w) => Ok(w.location),
            Err(e) => Err(e),
        },
        cur,
        out,
        leftover,
    );
    (
        WithSpan {
            item: SlotView {
                item: match parsed {
                    Ok(w) => Some(w),
                    Err(_) => None,
                },
                extra: f.0,
            },
            location: f.1,
        },
        f.2,
    )
}

/// A parse's value with the span of what it read.
pub open spec fn spanned<V>(
    r: Result<V, WithSpan<ParseError>>,
    start: u32,
    before: u32,
    after: Cur,
) -> Result<WithSpan<V>, WithSpan<ParseError>> {
    match r {
        Ok(v) => Ok(WithSpan { item: v, location: crate::chunk_stream::span_since(start, before, after) }),
        Err(e) => Err(e),
    }
}

/// Ends the parse of a chunk whose reader is `cursor`: reports unread items, records their
/// leftover roles, and gives what was left unread and the slot's span.
pub fn finish_chunk(
    cursor: &ItemCursor,
    parsed: Result<Span, WithSpan<ParseError>>,
    leftover: Expectation,
    out: &mut ParseOutput,
) -> (r: (Option<WithSpan<UnparsedChunkItems>>, Span))
    requires
        cursor.wf(),
    ensures
        only_appends(old(out).view(), final(out).view()),
        (parsed matches Err(e) ==> e.item != ParseError::EmptyLiteral) ==> adds_no_empty_literal(
            old(out).view(),
            final(out).view(),
        ),
        (unparsed_view(r.0), r.1, final(out).view()) == s_finish(
            cursor.nodes(),
            parsed,
            cursor.cur(),
            old(out).view(),
            leftover,
        ),
{
    proof {
        lemma_contents_view(*cursor.items);
    }
    let ghost ns = cursor.nodes();
    match parsed {
        Ok(span) => {
            match cursor.peek() {
                None => (None, span),
                Some(first) => {
                    let index = cursor.position();
                    out.report_error(
                        WithSpan {
                            item: ParseError::expected(leftover, crate::chunk::found_of(&first.item)),
                            location: first.location,
                        },
                    );
                    fill_items_from(cursor.items, index, out);
                    let rest = unread_items_from(cursor.items, index);
                    let extra = Span::join(first.location, cursor.items.last().location);
                    proof {
                        assert(ns.skip(index as int)[0] == ns[index as int]);
                        assert(ns.skip(index as int).last() == ns.last());
                    }
                    (
                        Some(WithSpan { item: UnparsedChunkItems(rest), location: extra }),
                        Span::join(span, extra),
                    )
                },
            }
        },
        Err(e) => {
            out.report_error(e);
            let location = Span::join(cursor.items.first().location, cursor.items.last().location);
            match cursor.peek() {
                Some(first) => {
                    let index = cursor.position();
                    fill_items_from(cursor.items, index, out);
                    let unread = unread_items_from(cursor.items, index);
                    let unread_location = Span::join(first.location, cursor.items.last().location);
                    proof {
                        assert(ns.skip(index as int)[0] == ns[index as int]);
                        assert(ns.skip(index as int).last() == ns.last());
                    }
                    (Some(WithSpan { item: UnparsedChunkItems(unread), location: unread_location }), location)
                },
                None => {
                    let all = unread_items_from(cursor.items, 0);
                    proof {
                        assert(ns.skip(0) =~= ns);
                    }
                    (Some(WithSpan { item: UnparsedChunkItems(all), location }), location)
                },
            }
        },
    }
}

/// The output after the boundary comma of a level's only chunk, if it has one: an error, since
/// the level holds one item, and the comma's leftover role.
pub open spec fn s_boundary_comma(c: ChunkView, end: Expectation, out: Out) -> Out {
    match c.separator {
        Some(sep) => match first_comma(sep.tokens) {
            Some(comma) => fill_token(
                report(
                    out,
                    WithSpan {
                        item: ParseError::Expected(
                            ExpectedFound {
                                expected: end,
                                found: Found::Token(NonBracketTokenKind::Comma),
                            },
                        ),
                        location: comma,
                    },
                ),
                NonBracketTokenKind::Comma,
                comma,
            ),
            None => out,
        },
        None => out,
    }
}

/// Reports the boundary comma of a level's only chunk, if it has one.
pub fn report_boundary_comma(chunk: &WithSpan<Chunk>, end: Expectation, out: &mut ParseOutput)
    ensures
        only_appends(old(out).view(), final(out).view()),
        adds_no_empty_literal(old(out).view(), final(out).view()),
        final(out).view() == s_boundary_comma(chunk_view_of(*chunk), end, old(out).view()),
{
    match chunk.item.boundary_comma() {
        Some(comma) => {
            out.report_error(
                WithSpan {
                    item: ParseError::expected(end, Found::Token(NonBracketTokenKind::Comma)),
                    location: comma,
                },
            );
            match crate::semantic_token::leftover_token(
                crate::non_bracket_token::SplitToken::NonBracket(NonBracketTokenKind::Comma),
            ) {
                Some(role) => out.record(role, comma),
                None => {},
            }
        },
        None => {},
    }
}

/// The boundary comma of a chunk, if it has one.
pub open spec fn boundary_comma_of(c: ChunkView) -> Option<Span> {
    match c.separator {
        Some(sep) => first_comma(sep.tokens),
        None => None,
    }
}

/// A level's only slot, its chunk's boundary comma, when it has one, appended to what it left
/// unread, and the slot stretched over it.
pub open spec fn attach_comma(
    extra: Option<WithSpan<Seq<ChunkNode>>>,
    location: Span,
    c: ChunkView,
) -> (Option<WithSpan<Seq<ChunkNode>>>, Span) {
    match boundary_comma_of(c) {
        None => (extra, location),
        Some(comma) => {
            let node = ChunkNode::Token { kind: NonBracketTokenKind::Comma, location: comma };
            match extra {
                None => (Some(WithSpan { item: seq![node], location: comma }), Span::spec_join(location, comma)),
                Some(e) => (
                    Some(WithSpan { item: e.item.push(node), location: Span::spec_join(e.location, comma) }),
                    Span::spec_join(location, comma),
                ),
            }
        },
    }
}

/// Appends a level's only chunk's boundary comma, when it has one, to what its slot left unread.
pub fn attach_boundary_comma(
    chunk: &WithSpan<Chunk>,
    extra: Option<WithSpan<UnparsedChunkItems>>,
    location: Span,
) -> (r: (Option<WithSpan<UnparsedChunkItems>>, Span))
    ensures
        (unparsed_view(r.0), r.1) == attach_comma(unparsed_view(extra), location, chunk_view_of(*chunk)),
{
    match chunk.item.boundary_comma() {
        None => (extra, location),
        Some(comma) => {
            let item = WithSpan {
                item: ChunkContentItem::NonBracket(crate::matched_brackets::NonBracketToken(NonBracketTokenKind::Comma)),
                location: comma,
            };
            match extra {
                None => {
                    let items = new_content_items(item);
                    proof {
                        crate::chunk::lemma_chunk_nodes_of_push(Seq::<WithSpan<ChunkContentItem>>::empty(), item);
                        assert(seq![item] =~= Seq::<WithSpan<ChunkContentItem>>::empty().push(item));
                        assert(chunk_nodes_of(content_items_held(items)) =~= seq![crate::chunk::chunk_node_of(item)]);
                    }
                    (Some(WithSpan { item: UnparsedChunkItems(items), location: comma }), Span::join(location, comma))
                },
                Some(e) => {
                    let mut items = e.item.0;
                    let ghost before = content_items_held(items);
                    push_content_item(&mut items, item);
                    proof {
                        crate::chunk::lemma_chunk_nodes_of_push(before, item);
                    }
                    (
                        Some(WithSpan { item: UnparsedChunkItems(items), location: Span::join(e.location, comma) }),
                        Span::join(location, comma),
                    )
                },
            }
        },
    }
}

/// The text of a token.
pub fn token_text(text: &str, location: Span) -> (r: String)
    requires
        span_in_text(text, location),
    ensures
        r@ == span_text(text, location),
{
    text_of(text, location)
}


/// What a slot leaves unread is a non-empty run of its chunk's items that ends the chunk, and
/// its span is tight to them: from the first's start to the last's end.
pub proof fn law_slot_extra_is_tight(
    contents: Seq<ChunkNode>,
    parsed: Result<Span, WithSpan<ParseError>>,
    cur: Cur,
    out: Out,
    leftover: Expectation,
)
    requires
        contents.len() > 0,
    ensures
        s_finish(contents, parsed, cur, out, leftover).0 matches Some(extra) ==> {
            &&& extra.item.len() > 0
            &&& extra.location == nodes_span(extra.item)
            &&& exists|k: int| 0 <= k < contents.len() && extra.item == #[trigger] contents.skip(k)
        },
{
    match parsed {
        Ok(_) => {
            if cur.index < contents.len() {
                assert(contents.skip(cur.index as int) == contents.skip(cur.index as int));
            }
        },
        Err(_) => {
            if cur.index < contents.len() {
                assert(contents.skip(cur.index as int) == contents.skip(cur.index as int));
            } else {
                assert(contents.skip(0) =~= contents);
            }
        },
    }
}

/// Recording leftover roles reports no error: only the roles change.
pub proof fn lemma_fill_keeps_errors(ns: Seq<ChunkNode>, i: int, out: Out)
    ensures
        crate::leftover::fill_nodes_from(ns, i, out).errors == out.errors,
    decreases crate::leftover::nodes_size(ns), ns.len() - i,
{
    if 0 <= i < ns.len() {
        lemma_nodes_size_elem(ns, i);
        lemma_fill_node_keeps_errors(ns[i], out);
        lemma_fill_keeps_errors(ns, i + 1, crate::leftover::fill_node(ns[i], out));
    }
}

pub proof fn lemma_fill_node_keeps_errors(n: ChunkNode, out: Out)
    ensures
        crate::leftover::fill_node(n, out).errors == out.errors,
    decreases node_size(n), 0nat,
{
    match n {
        ChunkNode::Token { .. } => {},
        ChunkNode::Group { opening, children, .. } => {
            lemma_fill_chunks_keep_errors(
                children,
                0,
                crate::chunk_stream::record(out, IsographSemanticToken::Bracket, opening.location),
            );
        },
    }
}

pub proof fn lemma_fill_chunks_keep_errors(cs: Seq<ChunkView>, j: int, out: Out)
    ensures
        fill_chunks_from(cs, j, out).errors == out.errors,
    decreases chunks_size(cs), cs.len() - j,
{
    if 0 <= j < cs.len() {
        lemma_chunks_size_elem(cs, j);
        let c = cs[j];
        lemma_fill_keeps_errors(c.contents, 0, out);
        let inner = crate::leftover::fill_nodes_from(c.contents, 0, out);
        match c.separator {
            Some(sep) => lemma_fill_separator_keeps_errors(sep.tokens, 0, inner),
            None => {},
        }
        lemma_fill_chunks_keep_errors(cs, j + 1, crate::leftover::fill_chunk(c, out));
    }
}

proof fn lemma_fill_separator_keeps_errors(toks: Seq<WithSpan<crate::chunk::SeparatorToken>>, i: int, out: Out)
    ensures
        crate::leftover::fill_separator(toks, i, out).errors == out.errors,
    decreases toks.len() - i,
{
    if 0 <= i < toks.len() {
        let kind = match toks[i].item {
            crate::chunk::SeparatorToken::Comma => NonBracketTokenKind::Comma,
            crate::chunk::SeparatorToken::LineBreak => NonBracketTokenKind::LineBreak,
        };
        lemma_fill_separator_keeps_errors(toks, i + 1, fill_token(out, kind, toks[i].location));
    }
}

} // verus!
