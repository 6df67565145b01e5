use vstd::prelude::*;

use crate::matched_brackets::{
    is_line_break, node_of, nodes_of, BracketItem, BracketNode, Bracketed, CloseBracket,
    MatchedBrackets, NonBracketToken, OpenBracket,
};
use crate::non_bracket_token::NonBracketTokenKind;
use crate::non_empty::NonEmptyVec;
use crate::nonempty_lists::{
    new_separator_tokens, push_separator_token, separator_token_at, separator_token_count,
    separator_tokens_held,
};
use crate::parse_error::Found;
use crate::span::{Span, WithSpan};

verus! {

/// The two token kinds a separator boundary can hold.
#[derive(Copy, Clone, Debug, Eq, PartialEq, Ord, PartialOrd, Hash, Structural)]
pub enum SeparatorToken {
    Comma,
    LineBreak,
}

/// A chunking error: a comma no item precedes, at the comma's span. The comma and its
/// boundary have no chunk.
#[derive(Copy, Clone, Debug, PartialEq, Eq, Structural)]
pub struct CommaWithoutItem(pub Span);

/// One level of the chunk tree: the whole literal at the root, a group's interior below. Its
/// chunks, in order, and nothing else: line breaks at a level's start were captured by the
/// opening bracket (or the literal's start), and a comma no item precedes is a
/// `CommaWithoutItem` error beside the tree, its boundary dropped.
#[derive(Debug, PartialEq, Eq)]
pub struct ChunkedLevel(pub Vec<WithSpan<Chunk>>);

/// A maximal separator-free run of a level's items, tokens and groups, plus the boundary
/// that ended it when one did: line breaks and at most one comma, a second comma ending the
/// boundary as well. Every chunk but a level's last has a trailing separator by construction;
/// the last's is the optional trailing delimiter. The wrapping `WithSpan`'s span runs from the
/// first part's start to the last part's end.
#[derive(Debug, PartialEq, Eq)]
pub struct Chunk {
    pub contents: NonEmptyVec<WithSpan<ChunkContentItem>>,
    pub trailing_separator: Option<WithSpan<ChunkSeparator>>,
}

/// What a chunk holds: every non-separator item of its level, groups included.
#[derive(Debug, PartialEq, Eq)]
pub enum ChunkContentItem {
    NonBracket(NonBracketToken),
    Group(ChunkedGroup),
}

/// A matched group re-chunked: the bracket tree's opening and closing are kept, and the
/// interior is a `ChunkedLevel`.
#[derive(Debug, PartialEq, Eq)]
pub struct ChunkedGroup {
    pub opening: WithSpan<OpenBracket>,
    /// The wrapping `WithSpan`'s span runs from the opening's end to the closing's start.
    pub children: WithSpan<ChunkedLevel>,
    pub closing: WithSpan<CloseBracket>,
}

/// The boundary that ended its chunk: its line-break tokens and at most one comma, in
/// order. A second comma is never absorbed; it opens the next chunk's boundary.
#[derive(Debug, PartialEq, Eq)]
pub struct ChunkSeparator(pub nonempty::NonEmpty<WithSpan<SeparatorToken>>);

/// The abstract value of a chunk's content item.
pub enum ChunkNode {
    Token { kind: NonBracketTokenKind, location: Span },
    Group {
        opening: WithSpan<OpenBracket>,
        children: Seq<ChunkView>,
        interior: Span,
        closing: WithSpan<CloseBracket>,
        location: Span,
    },
}

/// The abstract value of a chunk's separator.
pub struct SeparatorView {
    pub tokens: Seq<WithSpan<SeparatorToken>>,
    pub location: Span,
}

/// The abstract value of a chunk.
pub struct ChunkView {
    pub contents: Seq<ChunkNode>,
    pub separator: Option<SeparatorView>,
    pub location: Span,
}

/// The separator a token kind is, if it is one: a comma or a line break.
pub open spec fn spec_separator_token(kind: NonBracketTokenKind) -> Option<SeparatorToken> {
    match kind {
        NonBracketTokenKind::Comma => Some(SeparatorToken::Comma),
        NonBracketTokenKind::LineBreak => Some(SeparatorToken::LineBreak),
        _ => None,
    }
}

/// The separator a bracket-tree item is, if it is one.
pub open spec fn sep_of(n: BracketNode) -> Option<SeparatorToken> {
    match n {
        BracketNode::Raw { kind, .. } => spec_separator_token(kind),
        _ => None,
    }
}

pub open spec fn node_location(n: BracketNode) -> Span {
    match n {
        BracketNode::Raw { location, .. } => location,
        BracketNode::Group { location, .. } => location,
    }
}

/// The first position at or after `pos` that is not a line break.
pub open spec fn skip_line_breaks(items: Seq<BracketNode>, pos: int) -> int
    decreases items.len() - pos,
{
    if 0 <= pos < items.len() && is_line_break(items[pos]) {
        skip_line_breaks(items, pos + 1)
    } else {
        pos
    }
}

/// The first position at or after `pos` that is a separator.
pub open spec fn content_end(items: Seq<BracketNode>, pos: int) -> int
    decreases items.len() - pos,
{
    if 0 <= pos < items.len() && sep_of(items[pos]) is None {
        content_end(items, pos + 1)
    } else {
        pos
    }
}

/// The end of the boundary that starts at `pos`: its separators, stopping before a second comma.
pub open spec fn boundary_end(items: Seq<BracketNode>, pos: int, seen_comma: bool) -> int
    decreases items.len() - pos,
{
    if 0 <= pos < items.len() && sep_of(items[pos]) is Some {
        if sep_of(items[pos]) == Some(SeparatorToken::Comma) {
            if seen_comma {
                pos
            } else {
                boundary_end(items, pos + 1, true)
            }
        } else {
            boundary_end(items, pos + 1, seen_comma)
        }
    } else {
        pos
    }
}

pub proof fn lemma_skip_line_breaks(items: Seq<BracketNode>, pos: int)
    ensures
        skip_line_breaks(items, pos) >= pos,
        pos >= 0 ==> skip_line_breaks(items, pos) <= items.len() || skip_line_breaks(items, pos) == pos,
    decreases items.len() - pos,
{
    if 0 <= pos < items.len() && is_line_break(items[pos]) {
        lemma_skip_line_breaks(items, pos + 1);
    }
}

pub proof fn lemma_content_end(items: Seq<BracketNode>, pos: int)
    ensures
        content_end(items, pos) >= pos,
        0 <= pos <= items.len() ==> content_end(items, pos) <= items.len(),
    decreases items.len() - pos,
{
    if 0 <= pos < items.len() && sep_of(items[pos]) is None {
        lemma_content_end(items, pos + 1);
    }
}

pub proof fn lemma_boundary_end(items: Seq<BracketNode>, pos: int, seen: bool)
    ensures
        boundary_end(items, pos, seen) >= pos,
        0 <= pos <= items.len() ==> boundary_end(items, pos, seen) <= items.len(),
    decreases items.len() - pos,
{
    if 0 <= pos < items.len() && sep_of(items[pos]) is Some {
        if sep_of(items[pos]) == Some(SeparatorToken::Comma) {
            if !seen {
                lemma_boundary_end(items, pos + 1, true);
            }
        } else {
            lemma_boundary_end(items, pos + 1, seen);
        }
    }
}

/// The separator tokens of `items[from..to]`.
pub open spec fn separator_tokens(items: Seq<BracketNode>, from: int, to: int) -> Seq<
    WithSpan<SeparatorToken>,
> {
    Seq::new(
        (to - from) as nat,
        |i: int|
            WithSpan {
                item: sep_of(items[from + i])->Some_0,
                location: node_location(items[from + i]),
            },
    )
}

/// The chunk whose contents are `items[p..e]`, abstracted as `contents`, and whose boundary is
/// `items[e..b]`.
pub open spec fn chunk_view_at(
    items: Seq<BracketNode>,
    p: int,
    e: int,
    b: int,
    contents: Seq<ChunkNode>,
) -> ChunkView {
    let contents_span = Span::spec_join(node_location(items[p]), node_location(items[e - 1]));
    let separator = if b > e {
        Some(
            SeparatorView {
                tokens: separator_tokens(items, e, b),
                location: Span::spec_join(node_location(items[e]), node_location(items[b - 1])),
            },
        )
    } else {
        None
    };
    let location = match separator {
        Some(s) => Span::spec_join(contents_span, s.location),
        None => contents_span,
    };
    ChunkView { contents, separator, location }
}

/// The content item a bracket-tree item becomes, with the chunking errors of a group's interior.
pub open spec fn chunk_content(n: BracketNode) -> (ChunkNode, Seq<CommaWithoutItem>)
    decreases n, 0int, 0int,
{
    match n {
        BracketNode::Raw { kind, location } => (ChunkNode::Token { kind, location }, seq![]),
        BracketNode::Group { opening, children, interior, closing, location } => {
            let r = chunks_from(children, 0);
            (ChunkNode::Group { opening, children: r.0, interior, closing, location }, r.1)
        },
    }
}

/// The content items of `items[pos..end]`, with the chunking errors of their interiors, in order.
pub open spec fn chunk_contents(items: Seq<BracketNode>, pos: int, end: int) -> (
    Seq<ChunkNode>,
    Seq<CommaWithoutItem>,
)
    decreases items, end - pos, 0int,
{
    if pos < 0 || pos >= end || end > items.len() {
        (seq![], seq![])
    } else {
        let c = chunk_content(items[pos]);
        let r = chunk_contents(items, pos + 1, end);
        (seq![c.0] + r.0, c.1 + r.1)
    }
}

/// The chunks of `items[pos..]` and the chunking errors, in source order. Line breaks before a
/// chunk are dropped; a comma no item precedes is an error, dropped with the line breaks that
/// follow it; otherwise a chunk is a maximal run of non-separator items plus the boundary that
/// ends it: its separators, up to but excluding a second comma.
pub open spec fn chunks_from(items: Seq<BracketNode>, pos: int) -> (
    Seq<ChunkView>,
    Seq<CommaWithoutItem>,
)
    decreases items, items.len() - pos, 1int,
{
    if pos < 0 {
        (seq![], seq![])
    } else {
        let p = skip_line_breaks(items, pos);
        proof {
            lemma_skip_line_breaks(items, pos);
        }
        if p >= items.len() {
            (seq![], seq![])
        } else if sep_of(items[p]) == Some(SeparatorToken::Comma) {
            let q = skip_line_breaks(items, p + 1);
            proof {
                lemma_skip_line_breaks(items, p + 1);
            }
            let r = chunks_from(items, q);
            (r.0, seq![CommaWithoutItem(node_location(items[p]))] + r.1)
        } else {
            let e = content_end(items, p + 1);
            proof {
                lemma_content_end(items, p + 1);
            }
            let c = chunk_contents(items, p, e);
            let b = boundary_end(items, e, false);
            proof {
                lemma_boundary_end(items, e, false);
            }
            let chunk = chunk_view_at(items, p, e, b, c.0);
            let r = chunks_from(items, b);
            (
                seq![chunk] + r.0,
                c.1 + r.1,
            )
        }
    }
}

/// The abstract value of a content item of the chunk tree.
pub open spec fn chunk_node_of(i: WithSpan<ChunkContentItem>) -> ChunkNode
    decreases i,
{
    match i.item {
        ChunkContentItem::NonBracket(t) => ChunkNode::Token { kind: t.0, location: i.location },
        ChunkContentItem::Group(g) => ChunkNode::Group {
            opening: g.opening,
            children: chunk_views_of(g.children.item.0@),
            interior: g.children.location,
            closing: g.closing,
            location: i.location,
        },
    }
}

/// The abstract values of a chunk's content items.
pub open spec fn chunk_nodes_of(s: Seq<WithSpan<ChunkContentItem>>) -> Seq<ChunkNode>
    decreases s,
{
    if s.len() == 0 {
        seq![]
    } else {
        chunk_nodes_of(s.subrange(0, s.len() - 1)).push(chunk_node_of(s[s.len() - 1]))
    }
}

/// The abstract value of a chunk.
pub open spec fn chunk_view_of(c: WithSpan<Chunk>) -> ChunkView
    decreases c,
{
    ChunkView {
        contents: seq![chunk_node_of(c.item.contents.head)] + chunk_nodes_of(c.item.contents.tail@),
        separator: match c.item.trailing_separator {
            Some(s) => Some(SeparatorView { tokens: separator_tokens_held(s.item.0), location: s.location }),
            None => None,
        },
        location: c.location,
    }
}

/// The abstract values of a level's chunks.
pub open spec fn chunk_views_of(s: Seq<WithSpan<Chunk>>) -> Seq<ChunkView>
    decreases s,
{
    if s.len() == 0 {
        seq![]
    } else {
        chunk_views_of(s.subrange(0, s.len() - 1)).push(chunk_view_of(s[s.len() - 1]))
    }
}

/// The separator a token kind is, if it is one: a comma or a line break.
pub fn separator_token(kind: NonBracketTokenKind) -> (r: Option<SeparatorToken>)
    ensures
        r == spec_separator_token(kind),
{
    match kind {
        NonBracketTokenKind::Comma => Some(SeparatorToken::Comma),
        NonBracketTokenKind::LineBreak => Some(SeparatorToken::LineBreak),
        _ => None,
    }
}

fn separator_of(item: &WithSpan<BracketItem>) -> (r: Option<SeparatorToken>)
    ensures
        r == sep_of(node_of(*item)),
{
    match &item.item {
        BracketItem::Raw(token) => separator_token(token.0),
        _ => None,
    }
}

pub proof fn lemma_chunk_nodes_of_push(s: Seq<WithSpan<ChunkContentItem>>, x: WithSpan<ChunkContentItem>)
    ensures
        chunk_nodes_of(s.push(x)) == chunk_nodes_of(s).push(chunk_node_of(x)),
{
    assert(s.push(x).subrange(0, s.len() as int) =~= s);
}

pub proof fn lemma_chunk_nodes_of_len(s: Seq<WithSpan<ChunkContentItem>>)
    ensures
        chunk_nodes_of(s).len() == s.len(),
        forall|i: int| 0 <= i < s.len() ==> #[trigger] chunk_nodes_of(s)[i] == chunk_node_of(s[i]),
    decreases s.len(),
{
    if s.len() > 0 {
        let t = s.subrange(0, s.len() - 1);
        lemma_chunk_nodes_of_len(t);
        assert forall|i: int| 0 <= i < s.len() implies #[trigger] chunk_nodes_of(s)[i] == chunk_node_of(s[i]) by {
            if i < s.len() - 1 {
                assert(t[i] == s[i]);
            }
        }
    }
}

pub proof fn lemma_chunk_views_of_len(s: Seq<WithSpan<Chunk>>)
    ensures
        chunk_views_of(s).len() == s.len(),
        forall|i: int| 0 <= i < s.len() ==> #[trigger] chunk_views_of(s)[i] == chunk_view_of(s[i]),
    decreases s.len(),
{
    if s.len() > 0 {
        let t = s.subrange(0, s.len() - 1);
        lemma_chunk_views_of_len(t);
        assert forall|i: int| 0 <= i < s.len() implies #[trigger] chunk_views_of(s)[i] == chunk_view_of(s[i]) by {
            if i < s.len() - 1 {
                assert(t[i] == s[i]);
            }
        }
    }
}

pub proof fn lemma_chunk_views_of_push(s: Seq<WithSpan<Chunk>>, x: WithSpan<Chunk>)
    ensures
        chunk_views_of(s.push(x)) == chunk_views_of(s).push(chunk_view_of(x)),
{
    assert(s.push(x).subrange(0, s.len() as int) =~= s);
}

proof fn lemma_skip_line_breaks_is(items: Seq<BracketNode>, a: int, j: int)
    requires
        0 <= a <= j <= items.len(),
        forall|k: int| a <= k < j ==> is_line_break(#[trigger] items[k]),
        j == items.len() || !is_line_break(items[j]),
    ensures
        skip_line_breaks(items, a) == j,
    decreases j - a,
{
    if a < j {
        lemma_skip_line_breaks_is(items, a + 1, j);
    }
}

proof fn lemma_content_end_is(items: Seq<BracketNode>, a: int, j: int)
    requires
        0 <= a <= j <= items.len(),
        forall|k: int| a <= k < j ==> sep_of(#[trigger] items[k]) is None,
        j == items.len() || sep_of(items[j]) is Some,
    ensures
        content_end(items, a) == j,
    decreases j - a,
{
    if a < j {
        lemma_content_end_is(items, a + 1, j);
    }
}

proof fn lemma_chunk_contents_extend(items: Seq<BracketNode>, p: int, j: int)
    requires
        0 <= p <= j < items.len(),
    ensures
        chunk_contents(items, p, j + 1) == (
            chunk_contents(items, p, j).0.push(chunk_content(items[j]).0),
            chunk_contents(items, p, j).1 + chunk_content(items[j]).1,
        ),
    decreases j - p,
{
    if p < j {
        lemma_chunk_contents_extend(items, p + 1, j);
        let c = chunk_content(items[p]);
        let r = chunk_contents(items, p + 1, j);
        assert(seq![c.0] + r.0.push(chunk_content(items[j]).0) =~= (seq![c.0] + r.0).push(
            chunk_content(items[j]).0,
        ));
        assert(c.1 + (r.1 + chunk_content(items[j]).1) =~= (c.1 + r.1) + chunk_content(
            items[j],
        ).1);
    } else {
        assert(chunk_contents(items, j + 1, j + 1) == (Seq::<ChunkNode>::empty(), Seq::<CommaWithoutItem>::empty()));
        assert(seq![chunk_content(items[j]).0] + Seq::<ChunkNode>::empty() =~= Seq::<ChunkNode>::empty().push(chunk_content(items[j]).0));
        assert(chunk_content(items[j]).1 + Seq::<CommaWithoutItem>::empty() =~= Seq::<CommaWithoutItem>::empty() + chunk_content(items[j]).1);
    }
}

proof fn lemma_chunk_contents_len(items: Seq<BracketNode>, p: int, e: int)
    requires
        0 <= p <= e <= items.len(),
    ensures
        chunk_contents(items, p, e).0.len() == e - p,
    decreases e - p,
{
    if p < e {
        lemma_chunk_contents_len(items, p + 1, e);
    }
}

/// The end of the line breaks that follow a dropped comma, or that precede a chunk.
fn drain_dropped_boundary(items: &Vec<WithSpan<BracketItem>>, pos: usize) -> (q: usize)
    requires
        pos <= items.len(),
    ensures
        q == skip_line_breaks(nodes_of(items@), pos as int),
        pos <= q <= items.len(),
{
    let ghost ns = nodes_of(items@);
    proof {
        crate::matched_brackets::lemma_nodes_of_len(items@);
    }
    let mut q = pos;
    while q < items.len() && separator_of(&items[q]) == Some(SeparatorToken::LineBreak)
        invariant
            pos <= q <= items.len(),
            ns == nodes_of(items@),
            ns.len() == items.len(),
            forall|i: int| 0 <= i < items.len() ==> #[trigger] ns[i] == node_of(items@[i]),
            forall|k: int| pos <= k < q ==> is_line_break(#[trigger] ns[k]),
        decreases items.len() - q,
    {
        proof {
            assert(ns[q as int] == node_of(items@[q as int]));
        }
        q += 1;
    }
    proof {
        if q < items.len() {
            assert(ns[q as int] == node_of(items@[q as int]));
        }
        lemma_skip_line_breaks_is(ns, pos as int, q as int);
    }
    q
}

/// The content item a bracket-tree item becomes. Group interiors chunk here.
fn content_of(item: &WithSpan<BracketItem>, errors: &mut Vec<CommaWithoutItem>) -> (r: WithSpan<
    ChunkContentItem,
>)
    ensures
        chunk_node_of(r) == chunk_content(node_of(*item)).0,
        final(errors)@ == old(errors)@ + chunk_content(node_of(*item)).1,
    decreases *item, 0int,
{
    match &item.item {
        BracketItem::Raw(token) => {
            proof {
                assert(old(errors)@ + Seq::<CommaWithoutItem>::empty() =~= old(errors)@);
            }
            WithSpan { item: ChunkContentItem::NonBracket(*token), location: item.location }
        },
        BracketItem::Bracketed(group) => {
            let g = chunk_group(group, errors);
            WithSpan { item: ChunkContentItem::Group(g), location: item.location }
        },
    }
}

fn chunk_group(group: &Bracketed, errors: &mut Vec<CommaWithoutItem>) -> (r: ChunkedGroup)
    ensures
        r.opening == group.opening,
        r.closing == group.closing,
        r.children.location == group.children.location,
        chunk_views_of(r.children.item.0@) == chunks_from(nodes_of(group.children.item.0@), 0).0,
        final(errors)@ == old(errors)@ + chunks_from(nodes_of(group.children.item.0@), 0).1,
    decreases *group, 0int,
{
    let children = chunk_level(&group.children.item, errors);
    ChunkedGroup {
        opening: group.opening,
        children: WithSpan { item: children, location: group.children.location },
        closing: group.closing,
    }
}

/// One absorption: a chunk, or a comma no item precedes, whose boundary is consumed and
/// dropped.
enum Absorbed {
    Chunk(WithSpan<Chunk>),
    CommaWithoutItem(Span),
}

/// One absorption from `pos`, and the position after it, or `None` at the level's end. Line
/// breaks are skipped; a comma is the error, its following line breaks drained; otherwise the
/// content phase runs, then the boundary phase, which stops before a second comma.
fn absorb_chunk(
    items: &Vec<WithSpan<BracketItem>>,
    pos: usize,
    errors: &mut Vec<CommaWithoutItem>,
) -> (r: (Option<Absorbed>, usize))
    requires
        pos <= items.len(),
    ensures
        ({
            let ns = nodes_of(items@);
            let p = skip_line_breaks(ns, pos as int);
            &&& p >= ns.len() ==> r.0 is None && final(errors)@ == old(errors)@
            &&& p < ns.len() && sep_of(ns[p]) == Some(SeparatorToken::Comma) ==> {
                &&& r.0 == Some(Absorbed::CommaWithoutItem(node_location(ns[p])))
                &&& r.1 == skip_line_breaks(ns, p + 1)
                &&& final(errors)@ == old(errors)@
            }
            &&& p < ns.len() && sep_of(ns[p]) != Some(SeparatorToken::Comma) ==> {
                let e = content_end(ns, p + 1);
                let b = boundary_end(ns, e, false);
                let c = chunk_contents(ns, p, e);
                &&& r.0 matches Some(Absorbed::Chunk(chunk)) && chunk_view_of(chunk)
                    == chunk_view_at(ns, p, e, b, c.0)
                &&& r.1 == b
                &&& final(errors)@ == old(errors)@ + c.1
            }
            &&& r.0 is Some ==> pos < r.1 <= items.len()
        }),
    decreases items, 1int,
{
    let ghost ns = nodes_of(items@);
    proof {
        crate::matched_brackets::lemma_nodes_of_len(items@);
    }
    let p = drain_dropped_boundary(items, pos);
    if p >= items.len() {
        return (None, p);
    }
    proof {
        assert(ns[p as int] == node_of(items@[p as int]));
    }
    let first_sep = separator_of(&items[p]);
    if first_sep == Some(SeparatorToken::Comma) {
        let comma = items[p].location;
        let next = drain_dropped_boundary(items, p + 1);
        return (Some(Absorbed::CommaWithoutItem(comma)), next);
    }
    // Content phase.
    let ghost errors0 = errors@;
    let first = content_of(&items[p], errors);
    let mut contents = NonEmptyVec::new(first);
    let mut j = p + 1;
    proof {
        assert(chunk_contents(ns, p as int, p + 1) == (
            seq![chunk_content(ns[p as int]).0],
            chunk_content(ns[p as int]).1,
        )) by {
            assert(chunk_contents(ns, p + 1, p + 1) == (Seq::<ChunkNode>::empty(), Seq::<CommaWithoutItem>::empty()));
            assert(seq![chunk_content(ns[p as int]).0] + Seq::<ChunkNode>::empty() =~= seq![chunk_content(ns[p as int]).0]);
            assert(chunk_content(ns[p as int]).1 + Seq::<CommaWithoutItem>::empty() =~= chunk_content(ns[p as int]).1);
        }
        assert(chunk_nodes_of(contents.tail@) =~= Seq::<ChunkNode>::empty());
        assert(seq![chunk_node_of(contents.head)] + chunk_nodes_of(contents.tail@) =~= seq![chunk_node_of(contents.head)]);
    }
    while j < items.len() && separator_of(&items[j]).is_none()
        invariant
            p < j <= items.len(),
            ns == nodes_of(items@),
            ns.len() == items.len(),
            forall|i: int| 0 <= i < items.len() ==> #[trigger] ns[i] == node_of(items@[i]),
            forall|k: int| p < k < j ==> sep_of(#[trigger] ns[k]) is None,
            seq![chunk_node_of(contents.head)] + chunk_nodes_of(contents.tail@) == chunk_contents(ns, p as int, j as int).0,
            errors@ == errors0 + chunk_contents(ns, p as int, j as int).1,
            contents.head.location == items@[p as int].location,
            contents.tail@.len() == j - p - 1,
            forall|k: int| 0 <= k < contents.tail@.len() ==> (#[trigger] contents.tail@[k]).location == items@[p + 1 + k].location,
        decreases items.len() - j,
    {
        proof {
            assert(ns[j as int] == node_of(items@[j as int]));
            lemma_chunk_contents_extend(ns, p as int, j as int);
        }
        let ghost tail0 = contents.tail@;
        let item = content_of(&items[j], errors);
        contents.push(item);
        proof {
            assert(contents.tail@ == tail0.push(item));
            lemma_chunk_nodes_of_push(tail0, item);
            assert(seq![chunk_node_of(contents.head)] + chunk_nodes_of(contents.tail@) =~= (seq![chunk_node_of(contents.head)] + chunk_nodes_of(tail0)).push(chunk_node_of(item)));
            assert(errors@ =~= errors0 + chunk_contents(ns, p as int, j + 1).1);
        }
        j += 1;
    }
    let e = j;
    proof {
        if e < items.len() {
            assert(ns[e as int] == node_of(items@[e as int]));
        }
        lemma_content_end_is(ns, p + 1, e as int);
    }
    let last_location = if contents.tail.len() == 0 {
        contents.head.location
    } else {
        contents.tail[contents.tail.len() - 1].location
    };
    let contents_span = Span::join(items[p].location, last_location);
    // Boundary phase.
    let mut separators: Option<nonempty::NonEmpty<WithSpan<SeparatorToken>>> = None;
    let mut seen_comma = false;
    let mut k = e;
    while k < items.len()
        invariant
            e <= k <= items.len(),
            ns == nodes_of(items@),
            ns.len() == items.len(),
            forall|i: int| 0 <= i < items.len() ==> #[trigger] ns[i] == node_of(items@[i]),
            boundary_end(ns, e as int, false) == boundary_end(ns, k as int, seen_comma),
            k == e ==> separators is None,
            k > e ==> (separators matches Some(seps) && separator_tokens_held(seps) == separator_tokens(ns, e as int, k as int)),
        ensures
            e <= k <= items.len(),
            boundary_end(ns, e as int, false) == boundary_end(ns, k as int, seen_comma),
            boundary_end(ns, k as int, seen_comma) == k,
            k == e ==> separators is None,
            k > e ==> (separators matches Some(seps) && separator_tokens_held(seps) == separator_tokens(ns, e as int, k as int)),
        decreases items.len() - k,
    {
        proof {
            assert(ns[k as int] == node_of(items@[k as int]));
        }
        let sep = match separator_of(&items[k]) {
            None => break,
            Some(sep) => sep,
        };
        if sep == SeparatorToken::Comma && seen_comma {
            break;
        }
        let token = WithSpan { item: sep, location: items[k].location };
        let ghost before = separator_tokens(ns, e as int, k as int);
        match separators {
            None => {
                separators = Some(new_separator_tokens(token));
            },
            Some(ref mut seps) => {
                push_separator_token(seps, token);
            },
        }
        if sep == SeparatorToken::Comma {
            seen_comma = true;
        }
        proof {
            assert(separator_tokens(ns, e as int, k + 1) =~= before.push(token));
        }
        k += 1;
    }
    let b = k;
    proof {
        assert(boundary_end(ns, b as int, seen_comma) == b);
        assert(b == boundary_end(ns, e as int, false));
        lemma_chunk_contents_len(ns, p as int, e as int);
    }
    let trailing_separator = match separators {
        None => None,
        Some(seps) => {
            Some(WithSpan { item: ChunkSeparator(seps), location: Span::join(items[e].location, items[b - 1].location) })
        },
    };
    let location = match &trailing_separator {
        Some(separator) => Span::join(contents_span, separator.location),
        None => contents_span,
    };
    let chunk = WithSpan { item: Chunk { contents, trailing_separator }, location };
    proof {
        assert(node_location(ns[p as int]) == items@[p as int].location);
        assert(node_location(ns[e - 1]) == items@[e - 1].location);
        if b > e {
            assert(node_location(ns[e as int]) == items@[e as int].location);
            assert(node_location(ns[b - 1]) == items@[b - 1].location);
        }
        assert(chunk_view_of(chunk).contents == chunk_contents(ns, p as int, e as int).0);
        assert(chunk_view_of(chunk).separator == chunk_view_at(ns, p as int, e as int, b as int, chunk_contents(ns, p as int, e as int).0).separator);
        assert(chunk_view_of(chunk) == chunk_view_at(ns, p as int, e as int, b as int, chunk_contents(ns, p as int, e as int).0));
        assert(errors@ == errors0 + chunk_contents(ns, p as int, e as int).1);
        assert(pos < b);
    }
    (Some(Absorbed::Chunk(chunk)), b)
}

/// Chunks one level of a matched-brackets tree, appending its chunking errors, and those of the
/// group interiors it holds, to `errors` in source order.
fn chunk_level(level: &MatchedBrackets, errors: &mut Vec<CommaWithoutItem>) -> (r: ChunkedLevel)
    ensures
        chunk_views_of(r.0@) == chunks_from(nodes_of(level.0@), 0).0,
        final(errors)@ == old(errors)@ + chunks_from(nodes_of(level.0@), 0).1,
    decreases *level, 0int,
{
    let ghost ns = nodes_of(level.0@);
    proof {
        crate::matched_brackets::lemma_nodes_of_len(level.0@);
    }
    let mut out: Vec<WithSpan<Chunk>> = Vec::new();
    let mut pos: usize = 0;
    proof {
        assert(chunk_views_of(out@) + chunks_from(ns, 0).0 =~= chunks_from(ns, 0).0);
        assert(old(errors)@ + chunks_from(ns, 0).1 == errors@ + chunks_from(ns, 0).1);
    }
    loop
        invariant
            pos <= level.0.len(),
            ns == nodes_of(level.0@),
            ns.len() == level.0.len(),
            chunk_views_of(out@) + chunks_from(ns, pos as int).0 == chunks_from(ns, 0).0,
            errors@ + chunks_from(ns, pos as int).1 == old(errors)@ + chunks_from(ns, 0).1,
        ensures
            chunk_views_of(out@) == chunks_from(ns, 0).0,
            errors@ == old(errors)@ + chunks_from(ns, 0).1,
        decreases level.0.len() - pos,
    {
        let ghost before = errors@;
        let (absorbed, next) = absorb_chunk(&level.0, pos, errors);
        proof {
            lemma_skip_line_breaks(ns, pos as int);
        }
        match absorbed {
            None => {
                proof {
                    assert(chunks_from(ns, pos as int).0 =~= Seq::<ChunkView>::empty());
                    assert(chunk_views_of(out@) + Seq::<ChunkView>::empty() =~= chunk_views_of(out@));
                    assert(errors@ + Seq::<CommaWithoutItem>::empty() =~= errors@);
                }
                break;
            },
            Some(Absorbed::CommaWithoutItem(comma)) => {
                errors.push(CommaWithoutItem(comma));
                proof {
                    assert(errors@ + chunks_from(ns, next as int).1 =~= before + chunks_from(ns, pos as int).1);
                }
            },
            Some(Absorbed::Chunk(chunk)) => {
                proof {
                    lemma_chunk_views_of_push(out@, chunk);
                }
                out.push(chunk);
                proof {
                    assert(chunk_views_of(out@) + chunks_from(ns, next as int).0 =~= chunk_views_of(out@.drop_last()) + chunks_from(ns, pos as int).0) by {
                        assert(out@.drop_last().push(chunk) == out@);
                    }
                    assert(errors@ + chunks_from(ns, next as int).1 =~= before + chunks_from(ns, pos as int).1);
                }
            },
        }
        pos = next;
    }
    ChunkedLevel(out)
}

/// Chunks a matched-brackets tree. Every non-separator token lands in a chunk; a comma no item
/// precedes is the pass's one error, returned beside the tree; no grammar is checked.
pub fn chunk(tree: &WithSpan<MatchedBrackets>) -> (r: (WithSpan<ChunkedLevel>, Vec<CommaWithoutItem>))
    ensures
        chunk_views_of(r.0.item.0@) == chunks_from(nodes_of(tree.item.0@), 0).0,
        r.0.location == tree.location,
        r.1@ == chunks_from(nodes_of(tree.item.0@), 0).1,
{
    let mut errors: Vec<CommaWithoutItem> = Vec::new();
    let level = chunk_level(&tree.item, &mut errors);
    proof {
        assert(Seq::<CommaWithoutItem>::empty() + chunks_from(nodes_of(tree.item.0@), 0).1 =~= chunks_from(nodes_of(tree.item.0@), 0).1);
    }
    (WithSpan { item: level, location: tree.location }, errors)
}

/// The content items that the non-separator items of `items[pos..]` become, in order.
pub open spec fn non_separators_from(items: Seq<BracketNode>, pos: int) -> Seq<ChunkNode>
    decreases items.len() - pos,
{
    if pos < 0 || pos >= items.len() {
        seq![]
    } else {
        (if sep_of(items[pos]) is None {
            seq![chunk_content(items[pos]).0]
        } else {
            seq![]
        }) + non_separators_from(items, pos + 1)
    }
}

/// The content items of a list of chunks, in order.
pub open spec fn contents_of_chunks(chunks: Seq<ChunkView>) -> Seq<ChunkNode>
    decreases chunks.len(),
{
    if chunks.len() == 0 {
        seq![]
    } else {
        chunks[0].contents + contents_of_chunks(chunks.drop_first())
    }
}

proof fn lemma_non_separators_skip(items: Seq<BracketNode>, a: int, b: int)
    requires
        0 <= a <= b <= items.len(),
        forall|k: int| a <= k < b ==> sep_of(#[trigger] items[k]) is Some,
    ensures
        non_separators_from(items, a) == non_separators_from(items, b),
    decreases b - a,
{
    if a < b {
        lemma_non_separators_skip(items, a + 1, b);
        assert(Seq::<ChunkNode>::empty() + non_separators_from(items, a + 1) =~= non_separators_from(items, a + 1));
    }
}

proof fn lemma_non_separators_contents(items: Seq<BracketNode>, p: int, e: int)
    requires
        0 <= p <= e <= items.len(),
        forall|k: int| p <= k < e ==> sep_of(#[trigger] items[k]) is None,
    ensures
        non_separators_from(items, p) == chunk_contents(items, p, e).0 + non_separators_from(items, e),
    decreases e - p,
{
    if p < e {
        lemma_non_separators_contents(items, p + 1, e);
        let c = chunk_content(items[p]);
        assert(seq![c.0] + (chunk_contents(items, p + 1, e).0 + non_separators_from(items, e)) =~= (seq![c.0] + chunk_contents(items, p + 1, e).0) + non_separators_from(items, e));
    } else {
        assert(Seq::<ChunkNode>::empty() + non_separators_from(items, e) =~= non_separators_from(items, e));
    }
}

proof fn lemma_skip_line_breaks_range(items: Seq<BracketNode>, a: int)
    requires
        0 <= a <= items.len(),
    ensures
        a <= skip_line_breaks(items, a) <= items.len(),
        forall|k: int| a <= k < skip_line_breaks(items, a) ==> is_line_break(#[trigger] items[k]),
        skip_line_breaks(items, a) < items.len() ==> !is_line_break(items[skip_line_breaks(items, a)]),
    decreases items.len() - a,
{
    if a < items.len() && is_line_break(items[a]) {
        lemma_skip_line_breaks_range(items, a + 1);
    }
}

proof fn lemma_content_end_range(items: Seq<BracketNode>, a: int)
    requires
        0 <= a <= items.len(),
    ensures
        a <= content_end(items, a) <= items.len(),
        forall|k: int| a <= k < content_end(items, a) ==> sep_of(#[trigger] items[k]) is None,
        content_end(items, a) < items.len() ==> sep_of(items[content_end(items, a)]) is Some,
    decreases items.len() - a,
{
    if a < items.len() && sep_of(items[a]) is None {
        lemma_content_end_range(items, a + 1);
    }
}

/// The number of commas among separator tokens.
pub open spec fn comma_count(tokens: Seq<WithSpan<SeparatorToken>>) -> nat
    decreases tokens.len(),
{
    if tokens.len() == 0 {
        0
    } else {
        (if tokens.last().item == SeparatorToken::Comma {
            1nat
        } else {
            0nat
        }) + comma_count(tokens.drop_last())
    }
}

proof fn lemma_boundary_range(items: Seq<BracketNode>, e: int, k: int, seen: bool)
    requires
        0 <= e <= k <= items.len(),
        forall|i: int| e <= i < k ==> sep_of(#[trigger] items[i]) is Some,
        comma_count(separator_tokens(items, e, k)) == (if seen { 1nat } else { 0nat }),
    ensures
        k <= boundary_end(items, k, seen) <= items.len(),
        forall|i: int| e <= i < boundary_end(items, k, seen) ==> sep_of(#[trigger] items[i]) is Some,
        comma_count(separator_tokens(items, e, boundary_end(items, k, seen))) <= 1,
        k < items.len() && sep_of(items[k]) is Some && !seen ==> boundary_end(items, k, seen) > k,
    decreases items.len() - k,
{
    if 0 <= k < items.len() && sep_of(items[k]) is Some {
        let is_comma = sep_of(items[k]) == Some(SeparatorToken::Comma);
        if !(is_comma && seen) {
            let next_seen = seen || is_comma;
            let t = separator_tokens(items, e, k + 1);
            assert(t.drop_last() =~= separator_tokens(items, e, k));
            assert(t.last().item == sep_of(items[k])->Some_0);
            lemma_boundary_range(items, e, k + 1, next_seen);
        }
    }
}

/// Every non-separator item of a level lands in a chunk, in order: the chunks' contents,
/// concatenated, are exactly the content items of the level's non-separator items.
pub proof fn law_chunks_keep_every_content_item(items: Seq<BracketNode>, pos: int)
    requires
        0 <= pos <= items.len(),
    ensures
        contents_of_chunks(chunks_from(items, pos).0) == non_separators_from(items, pos),
    decreases items.len() - pos,
{
    let p = skip_line_breaks(items, pos);
    lemma_skip_line_breaks_range(items, pos);
    lemma_non_separators_skip(items, pos, p);
    if p < items.len() {
        if sep_of(items[p]) == Some(SeparatorToken::Comma) {
            let q = skip_line_breaks(items, p + 1);
            lemma_skip_line_breaks_range(items, p + 1);
            lemma_non_separators_skip(items, p, q);
            law_chunks_keep_every_content_item(items, q);
        } else {
            let e = content_end(items, p + 1);
            lemma_content_end_range(items, p + 1);
            let b = boundary_end(items, e, false);
            assert(separator_tokens(items, e, e) =~= Seq::<WithSpan<SeparatorToken>>::empty());
            lemma_boundary_range(items, e, e, false);
            lemma_non_separators_contents(items, p, e);
            lemma_non_separators_skip(items, e, b);
            law_chunks_keep_every_content_item(items, b);
            let r = chunks_from(items, b);
            let chunk = chunk_view_at(items, p, e, b, chunk_contents(items, p, e).0);
            assert((seq![chunk] + r.0).drop_first() =~= r.0);
        }
    }
}

/// Every chunk of a level but the last has a trailing separator, and no separator absorbs more
/// than one comma.
pub proof fn law_chunk_boundaries(items: Seq<BracketNode>, pos: int)
    requires
        0 <= pos <= items.len(),
    ensures
        forall|i: int| 0 <= i < chunks_from(items, pos).0.len() - 1 ==> (#[trigger] chunks_from(items, pos).0[i]).separator is Some,
        forall|i: int| 0 <= i < chunks_from(items, pos).0.len() ==> ((#[trigger] chunks_from(items, pos).0[i]).separator matches Some(s) ==> comma_count(s.tokens) <= 1),
    decreases items.len() - pos,
{
    let p = skip_line_breaks(items, pos);
    lemma_skip_line_breaks_range(items, pos);
    if p < items.len() {
        if sep_of(items[p]) == Some(SeparatorToken::Comma) {
            let q = skip_line_breaks(items, p + 1);
            lemma_skip_line_breaks_range(items, p + 1);
            law_chunk_boundaries(items, q);
        } else {
            let e = content_end(items, p + 1);
            lemma_content_end_range(items, p + 1);
            let b = boundary_end(items, e, false);
            assert(separator_tokens(items, e, e) =~= Seq::<WithSpan<SeparatorToken>>::empty());
            lemma_boundary_range(items, e, e, false);
            law_chunk_boundaries(items, b);
            let r = chunks_from(items, b);
            let chunk = chunk_view_at(items, p, e, b, chunk_contents(items, p, e).0);
            let all = seq![chunk] + r.0;
            assert(chunks_from(items, pos).0 == all);
            if b == e {
                assert(e == items.len());
                assert(r.0.len() == 0) by {
                    lemma_skip_line_breaks_range(items, b);
                }
            }
            assert forall|i: int| 0 <= i < all.len() - 1 implies (#[trigger] all[i]).separator is Some by {
                if i > 0 {
                    assert(all[i] == r.0[i - 1]);
                }
            }
            assert forall|i: int| 0 <= i < all.len() implies ((#[trigger] all[i]).separator matches Some(s) ==> comma_count(s.tokens) <= 1) by {
                if i > 0 {
                    assert(all[i] == r.0[i - 1]);
                }
            }
        }
    }
}

/// What the parser reports it found at a content item: the token's kind, or the group's
/// opening bracket.
pub open spec fn spec_found(item: ChunkContentItem) -> Found {
    match item {
        ChunkContentItem::NonBracket(token) => Found::Token(token.0),
        ChunkContentItem::Group(group) => Found::Group(group.opening.item.0),
    }
}

/// What the parser reports it found at a content item.
pub fn found_of(item: &ChunkContentItem) -> (f: Found)
    ensures
        f == spec_found(*item),
{
    match item {
        ChunkContentItem::NonBracket(token) => Found::Token(token.0),
        ChunkContentItem::Group(group) => Found::Group(group.opening.item.0),
    }
}

impl<'a> From<&'a ChunkContentItem> for Found {
    fn from(item: &'a ChunkContentItem) -> (f: Found) {
        found_of(item)
    }
}

impl<'a> vstd::std_specs::convert::FromSpecImpl<&'a ChunkContentItem> for Found {
    open spec fn obeys_from_spec() -> bool {
        true
    }

    open spec fn from_spec(v: &'a ChunkContentItem) -> Found {
        spec_found(*v)
    }
}

impl ChunkedLevel {
    /// The number of chunks of the level.
    pub fn len(&self) -> (n: usize)
        ensures
            n == self.0@.len(),
    {
        self.0.len()
    }
}

impl Chunk {
    /// First content item through last content item. `WithSpan<Chunk>` also covers the
    /// trailing separator.
    pub fn contents_span(&self) -> (s: Span)
        ensures
            s == Span::spec_join(
                self.contents.spec_elements()[0].location,
                self.contents.spec_elements().last().location,
            ),
    {
        Span::join(self.contents.first().location, self.contents.last().location)
    }

    /// The first content item.
    pub fn first_item(&self) -> (r: &WithSpan<ChunkContentItem>)
        ensures
            *r == self.contents.spec_elements()[0],
    {
        self.contents.first()
    }

    /// The span of the comma in the chunk's trailing separator, if it has one.
    #[verifier::loop_isolation(false)]
    pub fn boundary_comma(&self) -> (r: Option<Span>)
        ensures
            r == (match self.trailing_separator {
                None => None,
                Some(sep) => first_comma(separator_tokens_held(sep.item.0)),
            }),
    {
        match &self.trailing_separator {
            None => None,
            Some(separator) => {
                let tokens = &separator.item.0;
                let ghost toks = separator_tokens_held(*tokens);
                let n = separator_token_count(tokens);
                proof {
                    assert(toks.skip(0) =~= toks);
                }
                let mut i: usize = 0;
                while i < n
                    invariant
                        toks == separator_tokens_held(*tokens),
                        n == toks.len(),
                        i <= n,
                        first_comma(toks) == first_comma(toks.skip(i as int)),
                    decreases n - i,
                {
                    proof {
                        assert(toks.skip(i as int)[0] == toks[i as int]);
                        assert(toks.skip(i as int).drop_first() =~= toks.skip(i + 1));
                    }
                    let token = separator_token_at(tokens, i);
                    if token.item == SeparatorToken::Comma {
                        proof {
                            let t = toks.skip(i as int);
                            assert(t.len() > 0 && t[0] == *token);
                            assert(first_comma(t) == Some(token.location));
                        }
                        return Some(token.location);
                    }
                    i += 1;
                }
                proof {
                    assert(toks.skip(i as int) =~= Seq::<WithSpan<SeparatorToken>>::empty());
                }
                None
            },
        }
    }
}

/// The span of the first comma among separator tokens.
pub open spec fn first_comma(toks: Seq<WithSpan<SeparatorToken>>) -> Option<Span>
    decreases toks.len(),
{
    if toks.len() == 0 {
        None
    } else if toks[0].item == SeparatorToken::Comma {
        Some(toks[0].location)
    } else {
        first_comma(toks.drop_first())
    }
}

} // verus!
