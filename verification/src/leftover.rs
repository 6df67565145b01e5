use vstd::prelude::*;

use crate::chunk::{
    chunk_node_of, chunk_nodes_of, lemma_chunk_nodes_of_push, chunk_view_of, chunk_views_of, lemma_chunk_views_of_len, Chunk,
    ChunkContentItem, ChunkNode, ChunkSeparator, ChunkView, ChunkedGroup, ChunkedLevel,
    SeparatorToken
};
use crate::chunk_stream::{contents_view, lemma_contents_view, record, Out, ParseOutput, adds_no_empty_literal, only_appends};
use crate::matched_brackets::NonBracketToken;
use crate::non_bracket_token::{NonBracketTokenKind, SplitToken};
use crate::non_empty::NonEmptyVec;
use crate::nonempty_lists::{
    content_items_held, new_content_items, new_separator_tokens, push_content_item,
    push_separator_token, separator_token_at, separator_token_count, separator_tokens_held,
};
use crate::semantic_token::{leftover_token, spec_leftover_token, IsographSemanticToken};
use crate::span::{Span, WithSpan};

verus! {

/// The number of tokens and chunks under a content item, itself included.
pub open spec fn node_size(n: ChunkNode) -> nat
    decreases n,
{
    match n {
        ChunkNode::Token { .. } => 1,
        ChunkNode::Group { children, .. } => 1 + chunks_size(children),
    }
}

/// The sizes of content items, summed.
pub open spec fn nodes_size(ns: Seq<ChunkNode>) -> nat
    decreases ns,
{
    if ns.len() == 0 {
        0
    } else {
        nodes_size(ns.subrange(0, ns.len() - 1)) + node_size(ns[ns.len() - 1])
    }
}

/// The size of a chunk: one more than the sizes of its contents.
pub open spec fn chunk_size(c: ChunkView) -> nat
    decreases c,
{
    1 + nodes_size(c.contents)
}

/// The sizes of chunks, summed.
pub open spec fn chunks_size(cs: Seq<ChunkView>) -> nat
    decreases cs,
{
    if cs.len() == 0 {
        0
    } else {
        chunks_size(cs.subrange(0, cs.len() - 1)) + chunk_size(cs[cs.len() - 1])
    }
}

pub proof fn lemma_nodes_size_elem(ns: Seq<ChunkNode>, i: int)
    requires
        0 <= i < ns.len(),
    ensures
        1 <= node_size(ns[i]) <= nodes_size(ns),
    decreases ns.len(),
{
    if i < ns.len() - 1 {
        let t = ns.subrange(0, ns.len() - 1);
        lemma_nodes_size_elem(t, i);
        assert(t[i] == ns[i]);
    }
}

pub proof fn lemma_chunks_size_elem(cs: Seq<ChunkView>, j: int)
    requires
        0 <= j < cs.len(),
    ensures
        nodes_size(cs[j].contents) < chunk_size(cs[j]) <= chunks_size(cs),
    decreases cs.len(),
{
    if j < cs.len() - 1 {
        let t = cs.subrange(0, cs.len() - 1);
        lemma_chunks_size_elem(t, j);
        assert(t[j] == cs[j]);
    }
}

/// The output with a leftover token's role recorded, when its kind has one.
pub open spec fn fill_token(out: Out, kind: NonBracketTokenKind, location: Span) -> Out {
    match spec_leftover_token(SplitToken::NonBracket(kind)) {
        Some(role) => record(out, role, location),
        None => out,
    }
}

/// The roles of a separator's leftover tokens, from the `i`-th on: a comma is content, a line
/// break has none.
pub open spec fn fill_separator(toks: Seq<WithSpan<SeparatorToken>>, i: int, out: Out) -> Out
    decreases toks.len() - i,
{
    if 0 <= i < toks.len() {
        let kind = match toks[i].item {
            SeparatorToken::Comma => NonBracketTokenKind::Comma,
            SeparatorToken::LineBreak => NonBracketTokenKind::LineBreak,
        };
        fill_separator(toks, i + 1, fill_token(out, kind, toks[i].location))
    } else {
        out
    }
}

/// The roles of a content item the grammar did not read, in source order: a token's leftover
/// role; for a group, its brackets and everything inside it.
pub open spec fn fill_node(n: ChunkNode, out: Out) -> Out
    decreases node_size(n), 0nat,
{
    match n {
        ChunkNode::Token { kind, location } => fill_token(out, kind, location),
        ChunkNode::Group { opening, children, closing, .. } => {
            let inner = fill_chunks_from(
                children,
                0,
                record(out, IsographSemanticToken::Bracket, opening.location),
            );
            record(inner, IsographSemanticToken::Bracket, closing.location)
        },
    }
}

/// The roles of content items the grammar did not read, from the `i`-th on.
pub open spec fn fill_nodes_from(ns: Seq<ChunkNode>, i: int, out: Out) -> Out
    decreases nodes_size(ns), ns.len() - i,
{
    if 0 <= i < ns.len() {
        proof {
            lemma_nodes_size_elem(ns, i);
        }
        fill_nodes_from(ns, i + 1, fill_node(ns[i], out))
    } else {
        out
    }
}

/// The roles of a chunk the grammar did not read: its contents, then its separator.
pub open spec fn fill_chunk(c: ChunkView, out: Out) -> Out
    decreases chunk_size(c), 0nat,
{
    let inner = fill_nodes_from(c.contents, 0, out);
    match c.separator {
        Some(sep) => fill_separator(sep.tokens, 0, inner),
        None => inner,
    }
}

/// The roles of chunks the grammar did not read, from the `j`-th on.
pub open spec fn fill_chunks_from(cs: Seq<ChunkView>, j: int, out: Out) -> Out
    decreases chunks_size(cs), cs.len() - j,
{
    if 0 <= j < cs.len() {
        proof {
            lemma_chunks_size_elem(cs, j);
        }
        fill_chunks_from(cs, j + 1, fill_chunk(cs[j], out))
    } else {
        out
    }
}

proof fn lemma_group_size(n: ChunkNode)
    requires
        n is Group,
    ensures
        chunks_size(n->children) < node_size(n),
{
}

/// Records the role of a leftover token, when its kind has one.
fn fill_token_exec(out: &mut ParseOutput, kind: NonBracketTokenKind, location: Span)
    ensures
        only_appends(old(out).view(), final(out).view()),
        adds_no_empty_literal(old(out).view(), final(out).view()),
        final(out).view() == fill_token(old(out).view(), kind, location),
{
    match leftover_token(SplitToken::NonBracket(kind)) {
        Some(role) => out.record(role, location),
        None => {},
    }
}

fn fill_separator_exec(sep: &ChunkSeparator, out: &mut ParseOutput)
    ensures
        only_appends(old(out).view(), final(out).view()),
        adds_no_empty_literal(old(out).view(), final(out).view()),
        final(out).view() == fill_separator(separator_tokens_held(sep.0), 0, old(out).view()),
{
    let ghost toks = separator_tokens_held(sep.0);
    let n = separator_token_count(&sep.0);
    let mut i: usize = 0;
    while i < n
        invariant
            only_appends(old(out).view(), out.view()),
            adds_no_empty_literal(old(out).view(), out.view()),
            toks == separator_tokens_held(sep.0),
            n == toks.len(),
            i <= n,
            fill_separator(toks, i as int, out.view()) == fill_separator(toks, 0, old(out).view()),
        decreases n - i,
    {
        let t = separator_token_at(&sep.0, i);
        let kind = match t.item {
            SeparatorToken::Comma => NonBracketTokenKind::Comma,
            SeparatorToken::LineBreak => NonBracketTokenKind::LineBreak,
        };
        fill_token_exec(out, kind, t.location);
        i += 1;
    }
}

/// Records the roles of a content item the grammar did not read.
pub fn fill_item(item: &WithSpan<ChunkContentItem>, out: &mut ParseOutput)
    ensures
        only_appends(old(out).view(), final(out).view()),
        adds_no_empty_literal(old(out).view(), final(out).view()),
        final(out).view() == fill_node(chunk_node_of(*item), old(out).view()),
    decreases node_size(chunk_node_of(*item)), 1nat,
{
    match &item.item {
        ChunkContentItem::NonBracket(token) => fill_token_exec(out, token.0, item.location),
        ChunkContentItem::Group(group) => {
            proof {
                lemma_group_size(chunk_node_of(*item));
            }
            out.record(IsographSemanticToken::Bracket, group.opening.location);
            fill_level(&group.children.item, out);
            out.record(IsographSemanticToken::Bracket, group.closing.location);
        },
    }
}

/// Records the roles of a level's chunks, none of which the grammar read.
pub fn fill_level(level: &ChunkedLevel, out: &mut ParseOutput)
    ensures
        only_appends(old(out).view(), final(out).view()),
        adds_no_empty_literal(old(out).view(), final(out).view()),
        final(out).view() == fill_chunks_from(chunk_views_of(level.0@), 0, old(out).view()),
    decreases chunks_size(chunk_views_of(level.0@)), 2nat,
{
    let ghost cs = chunk_views_of(level.0@);
    proof {
        lemma_chunk_views_of_len(level.0@);
    }
    let mut j: usize = 0;
    while j < level.0.len()
        invariant
            only_appends(old(out).view(), out.view()),
            adds_no_empty_literal(old(out).view(), out.view()),
            cs == chunk_views_of(level.0@),
            cs.len() == level.0@.len(),
            forall|k: int| 0 <= k < cs.len() ==> #[trigger] cs[k] == chunk_view_of(level.0@[k]),
            j <= level.0.len(),
            fill_chunks_from(cs, j as int, out.view()) == fill_chunks_from(cs, 0, old(out).view()),
        decreases level.0.len() - j,
    {
        proof {
            lemma_chunks_size_elem(cs, j as int);
        }
        fill_chunk_exec(&level.0[j], out);
        j += 1;
    }
}

/// Records the roles of a level's chunks from the `from`-th on, none of which the grammar read.
pub fn fill_chunks_from_index(chunks: &Vec<WithSpan<Chunk>>, from: usize, out: &mut ParseOutput)
    ensures
        only_appends(old(out).view(), final(out).view()),
        adds_no_empty_literal(old(out).view(), final(out).view()),
        final(out).view() == fill_chunks_from(chunk_views_of(chunks@), from as int, old(out).view()),
{
    let ghost cs = chunk_views_of(chunks@);
    proof {
        lemma_chunk_views_of_len(chunks@);
    }
    let mut j: usize = from;
    if j >= chunks.len() {
        return;
    }
    while j < chunks.len()
        invariant
            only_appends(old(out).view(), out.view()),
            adds_no_empty_literal(old(out).view(), out.view()),
            cs == chunk_views_of(chunks@),
            cs.len() == chunks@.len(),
            forall|k: int| 0 <= k < cs.len() ==> #[trigger] cs[k] == chunk_view_of(chunks@[k]),
            from <= j <= chunks.len(),
            fill_chunks_from(cs, j as int, out.view()) == fill_chunks_from(cs, from as int, old(out).view()),
        decreases chunks.len() - j,
    {
        fill_chunk_exec(&chunks[j], out);
        j += 1;
    }
}

/// Records the roles of a chunk the grammar did not read.
pub fn fill_chunk_exec(chunk: &WithSpan<Chunk>, out: &mut ParseOutput)
    ensures
        only_appends(old(out).view(), final(out).view()),
        adds_no_empty_literal(old(out).view(), final(out).view()),
        final(out).view() == fill_chunk(chunk_view_of(*chunk), old(out).view()),
    decreases chunk_size(chunk_view_of(*chunk)), 1nat,
{
    fill_items_from(&chunk.item.contents, 0, out);
    match &chunk.item.trailing_separator {
        Some(sep) => fill_separator_exec(&sep.item, out),
        None => {},
    }
}

/// Records the roles of content items the grammar did not read, from the `from`-th on.
pub fn fill_items_from(
    items: &NonEmptyVec<WithSpan<ChunkContentItem>>,
    from: usize,
    out: &mut ParseOutput,
)
    ensures
        only_appends(old(out).view(), final(out).view()),
        adds_no_empty_literal(old(out).view(), final(out).view()),
        final(out).view() == fill_nodes_from(contents_view(*items), from as int, old(out).view()),
    decreases nodes_size(contents_view(*items)), 2nat,
{
    let ghost ns = contents_view(*items);
    proof {
        lemma_contents_view(*items);
    }
    let n = items.tail.len();
    let mut i: usize = from;
    if i > n {
        return;
    }
    while i <= n
        invariant
            only_appends(old(out).view(), out.view()),
            adds_no_empty_literal(old(out).view(), out.view()),
            ns == contents_view(*items),
            ns.len() == n + 1,
            n == items.tail.len(),
            forall|k: int| 0 <= k < ns.len() ==> #[trigger] ns[k] == chunk_node_of(items.spec_elements()[k]),
            i <= n + 1,
            fill_nodes_from(ns, i as int, out.view()) == fill_nodes_from(ns, from as int, old(out).view()),
        decreases n + 1 - i,
    {
        proof {
            lemma_nodes_size_elem(ns, i as int);
        }
        fill_item(items.get(i), out);
        if i == n {
            proof {
                assert(fill_nodes_from(ns, (i + 1) as int, out.view()) == out.view());
            }
            return;
        }
        i += 1;
    }
}

fn copy_separator(sep: &WithSpan<ChunkSeparator>) -> (r: WithSpan<ChunkSeparator>)
    ensures
        r.location == sep.location,
        separator_tokens_held(r.item.0) == separator_tokens_held(sep.item.0),
{
    let ghost toks = separator_tokens_held(sep.item.0);
    let n = separator_token_count(&sep.item.0);
    let mut copied = new_separator_tokens(*separator_token_at(&sep.item.0, 0));
    let mut i: usize = 1;
    while i < n
        invariant
            toks == separator_tokens_held(sep.item.0),
            n == toks.len(),
            1 <= i <= n,
            separator_tokens_held(copied) == toks.subrange(0, i as int),
        decreases n - i,
    {
        push_separator_token(&mut copied, *separator_token_at(&sep.item.0, i));
        proof {
            assert(separator_tokens_held(copied) =~= toks.subrange(0, i + 1));
        }
        i += 1;
    }
    proof {
        assert(toks.subrange(0, n as int) =~= toks);
    }
    WithSpan { item: ChunkSeparator(copied), location: sep.location }
}

/// A copy of a content item.
pub fn copy_item(item: &WithSpan<ChunkContentItem>) -> (r: WithSpan<ChunkContentItem>)
    ensures
        chunk_node_of(r) == chunk_node_of(*item),
    decreases node_size(chunk_node_of(*item)), 1nat,
{
    match &item.item {
        ChunkContentItem::NonBracket(token) => WithSpan {
            item: ChunkContentItem::NonBracket(NonBracketToken(token.0)),
            location: item.location,
        },
        ChunkContentItem::Group(group) => {
            proof {
                lemma_group_size(chunk_node_of(*item));
            }
            let children = copy_level(&group.children);
            WithSpan {
                item: ChunkContentItem::Group(
                    ChunkedGroup { opening: group.opening, children, closing: group.closing },
                ),
                location: item.location,
            }
        },
    }
}

/// A copy of a level.
pub fn copy_level(level: &WithSpan<ChunkedLevel>) -> (r: WithSpan<ChunkedLevel>)
    ensures
        r.location == level.location,
        chunk_views_of(r.item.0@) == chunk_views_of(level.item.0@),
    decreases chunks_size(chunk_views_of(level.item.0@)), 2nat,
{
    let ghost cs = chunk_views_of(level.item.0@);
    proof {
        lemma_chunk_views_of_len(level.item.0@);
    }
    let mut chunks: Vec<WithSpan<Chunk>> = Vec::new();
    let mut j: usize = 0;
    while j < level.item.0.len()
        invariant
            cs == chunk_views_of(level.item.0@),
            cs.len() == level.item.0@.len(),
            forall|k: int| 0 <= k < cs.len() ==> #[trigger] cs[k] == chunk_view_of(level.item.0@[k]),
            j <= level.item.0.len(),
            chunk_views_of(chunks@) == cs.subrange(0, j as int),
        decreases level.item.0.len() - j,
    {
        proof {
            lemma_chunks_size_elem(cs, j as int);
        }
        let c = copy_chunk(&level.item.0[j]);
        proof {
            crate::chunk::lemma_chunk_views_of_push(chunks@, c);
        }
        chunks.push(c);
        proof {
            assert(chunk_views_of(chunks@) =~= cs.subrange(0, j + 1));
        }
        j += 1;
    }
    proof {
        assert(cs.subrange(0, cs.len() as int) =~= cs);
    }
    WithSpan { item: ChunkedLevel(chunks), location: level.location }
}

/// A copy of a chunk.
pub fn copy_chunk(chunk: &WithSpan<Chunk>) -> (r: WithSpan<Chunk>)
    ensures
        chunk_view_of(r) == chunk_view_of(*chunk),
    decreases chunk_size(chunk_view_of(*chunk)), 1nat,
{
    proof {
        lemma_contents_view(chunk.item.contents);
    }
    let contents = copy_items_from(&chunk.item.contents, 0);
    proof {
        assert(contents_view(chunk.item.contents).skip(0) =~= contents_view(chunk.item.contents));
    }
    let trailing_separator = match &chunk.item.trailing_separator {
        Some(sep) => Some(copy_separator(sep)),
        None => None,
    };
    let r = WithSpan { item: Chunk { contents, trailing_separator }, location: chunk.location };
    proof {
        assert(contents_view(r.item.contents) == contents_view(chunk.item.contents));
    }
    r
}

/// A copy of the content items from the `from`-th on.
pub fn copy_items_from(items: &NonEmptyVec<WithSpan<ChunkContentItem>>, from: usize) -> (r:
    NonEmptyVec<WithSpan<ChunkContentItem>>)
    requires
        from < items.spec_elements().len(),
    ensures
        contents_view(r) == contents_view(*items).skip(from as int),
    decreases nodes_size(contents_view(*items)), 2nat,
{
    let ghost ns = contents_view(*items);
    proof {
        lemma_contents_view(*items);
        lemma_nodes_size_elem(ns, from as int);
    }
    let mut out = NonEmptyVec::new(copy_item(items.get(from)));
    proof {
        lemma_contents_view(out);
        assert(contents_view(out) =~= ns.subrange(from as int, from + 1));
    }
    let n = items.tail.len();
    let mut i: usize = from;
    while i < n
        invariant
            ns == contents_view(*items),
            ns.len() == n + 1,
            n == items.tail.len(),
            forall|k: int| 0 <= k < ns.len() ==> #[trigger] ns[k] == chunk_node_of(items.spec_elements()[k]),
            from <= i <= n,
            contents_view(out) == ns.subrange(from as int, i + 1),
        decreases n - i,
    {
        proof {
            lemma_nodes_size_elem(ns, i + 1);
        }
        let c = copy_item(items.get(i + 1));
        let ghost before = out;
        out.push(c);
        proof {
            lemma_contents_view(before);
            lemma_contents_view(out);
            assert(contents_view(out) =~= ns.subrange(from as int, i + 2));
        }
        i += 1;
    }
    proof {
        assert(ns.subrange(from as int, ns.len() as int) =~= ns.skip(from as int));
    }
    out
}

/// Copies of the content items from the `from`-th on, as a list of unread items.
pub fn unread_items_from(items: &NonEmptyVec<WithSpan<ChunkContentItem>>, from: usize) -> (r:
    nonempty::NonEmpty<WithSpan<ChunkContentItem>>)
    requires
        from < items.spec_elements().len(),
    ensures
        chunk_nodes_of(content_items_held(r)) == contents_view(*items).skip(from as int),
{
    let ghost ns = contents_view(*items);
    proof {
        lemma_contents_view(*items);
    }
    let first = copy_item(items.get(from));
    let mut out = new_content_items(first);
    proof {
        lemma_chunk_nodes_of_push(Seq::<WithSpan<ChunkContentItem>>::empty(), first);
        assert(seq![first] =~= Seq::<WithSpan<ChunkContentItem>>::empty().push(first));
        assert(chunk_nodes_of(content_items_held(out)) =~= ns.subrange(from as int, from + 1));
    }
    let n = items.tail.len();
    let mut i: usize = from;
    while i < n
        invariant
            ns == contents_view(*items),
            ns.len() == n + 1,
            n == items.tail.len(),
            forall|k: int| 0 <= k < ns.len() ==> #[trigger] ns[k] == chunk_node_of(items.spec_elements()[k]),
            from <= i <= n,
            chunk_nodes_of(content_items_held(out)) == ns.subrange(from as int, i + 1),
        decreases n - i,
    {
        let c = copy_item(items.get(i + 1));
        let ghost before = content_items_held(out);
        push_content_item(&mut out, c);
        proof {
            lemma_chunk_nodes_of_push(before, c);
            assert(chunk_nodes_of(content_items_held(out)) =~= ns.subrange(from as int, i + 2));
        }
        i += 1;
    }
    proof {
        assert(ns.subrange(from as int, ns.len() as int) =~= ns.skip(from as int));
    }
    out
}

} // verus!
