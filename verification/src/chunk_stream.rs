use vstd::prelude::*;

use crate::chunk::{chunk_node_of, chunk_nodes_of, ChunkContentItem, ChunkNode};

use crate::non_bracket_token::{BracketKind, NonBracketTokenKind};
use crate::leftover::unread_items_from;
use crate::non_empty::NonEmptyVec;
use crate::nonempty_lists::content_items_held;
use crate::parse_error::{Expectation, Found, ParseError};
use crate::semantic_token::IsographSemanticToken;
use crate::span::{Span, WithSpan};

verus! {

/// What parsing has produced so far: the semantic tokens recorded, and the errors reported.
pub struct Out {
    pub tokens: Seq<WithSpan<IsographSemanticToken>>,
    pub errors: Seq<WithSpan<ParseError>>,
}

/// A reader of one chunk: the position of the next content item, and the end of the last item
/// it advanced past (the chunk's start before any).
pub struct Cur {
    pub index: nat,
    pub previous_end: u32,
}

/// The abstract contents of a chunk.
pub open spec fn contents_view(ne: NonEmptyVec<WithSpan<ChunkContentItem>>) -> Seq<ChunkNode> {
    seq![chunk_node_of(ne.head)] + chunk_nodes_of(ne.tail@)
}

pub open spec fn cnode_location(n: ChunkNode) -> Span {
    match n {
        ChunkNode::Token { location, .. } => location,
        ChunkNode::Group { location, .. } => location,
    }
}

/// The span a content item's semantic token covers: a token's own span, a group's opening.
pub open spec fn cnode_token_span(n: ChunkNode) -> Span {
    match n {
        ChunkNode::Token { location, .. } => location,
        ChunkNode::Group { opening, .. } => opening.location,
    }
}

/// What the parser reports it found at a content item.
pub open spec fn cnode_found(n: ChunkNode) -> Found {
    match n {
        ChunkNode::Token { kind, .. } => Found::Token(kind),
        ChunkNode::Group { opening, .. } => Found::Group(opening.item.0),
    }
}

/// The reader at the start of a chunk.
pub open spec fn start_cur(items: Seq<ChunkNode>) -> Cur {
    Cur { index: 0, previous_end: cnode_location(items[0]).start }
}

/// `after` holds every semantic token and every error of `before`, in the same places: parsing
/// only appends to its output.
pub open spec fn only_appends(before: Out, after: Out) -> bool {
    &&& before.tokens.len() <= after.tokens.len()
    &&& forall|i: int| 0 <= i < before.tokens.len() ==> #[trigger] after.tokens[i] == before.tokens[i]
    &&& before.errors.len() <= after.errors.len()
    &&& forall|i: int| 0 <= i < before.errors.len() ==> #[trigger] after.errors[i] == before.errors[i]
}

/// Every error `after` holds past those of `before` is one other than an empty literal: only
/// the literal's own parse reports that one.
pub open spec fn adds_no_empty_literal(before: Out, after: Out) -> bool {
    forall|i: int| before.errors.len() <= i < after.errors.len() ==> #[trigger] after.errors[i].item
        != ParseError::EmptyLiteral
}

/// The output with one more semantic token.
pub open spec fn record(out: Out, role: IsographSemanticToken, span: Span) -> Out {
    Out { tokens: out.tokens.push(WithSpan { item: role, location: span }), ..out }
}

/// The output with one more error.
pub open spec fn report(out: Out, error: WithSpan<ParseError>) -> Out {
    Out { errors: out.errors.push(error), ..out }
}

/// The reader advanced past the next item, and that item's semantic token recorded.
pub open spec fn commit(items: Seq<ChunkNode>, cur: Cur, out: Out, role: IsographSemanticToken) -> (Cur, Out) {
    let n = items[cur.index as int];
    (
        Cur { index: cur.index + 1, previous_end: cnode_location(n).end },
        record(out, role, cnode_token_span(n)),
    )
}

/// The reader moved past the next item, with no role recorded for it.
pub open spec fn advance(items: Seq<ChunkNode>, cur: Cur) -> Cur {
    Cur { index: cur.index + 1, previous_end: cnode_location(items[cur.index as int]).end }
}

/// Whether the next item is a token of `kind`.
pub open spec fn next_is_token(items: Seq<ChunkNode>, cur: Cur, kind: NonBracketTokenKind) -> bool {
    cur.index < items.len() && (items[cur.index as int] matches ChunkNode::Token { kind: k, .. } && k == kind)
}

/// Whether the next item is a group opened by `kind`.
pub open spec fn next_is_group(items: Seq<ChunkNode>, cur: Cur, kind: BracketKind) -> bool {
    cur.index < items.len() && (items[cur.index as int] matches ChunkNode::Group { opening, .. } && opening.item.0 == kind)
}

/// The error of expecting `e` at the reader's position: what is there, or the end of the chunk
/// as an empty span right after the last item read.
pub open spec fn expected_here(items: Seq<ChunkNode>, cur: Cur, e: Expectation) -> WithSpan<ParseError> {
    if cur.index < items.len() {
        let n = items[cur.index as int];
        WithSpan { item: ParseError::Expected(crate::parse_error::ExpectedFound { expected: e, found: cnode_found(n) }), location: cnode_location(n) }
    } else {
        WithSpan {
            item: ParseError::Expected(crate::parse_error::ExpectedFound { expected: e, found: Found::EndOfChunk }),
            location: Span { start: cur.previous_end, end: cur.previous_end },
        }
    }
}

/// Where a parse that starts at the reader's position starts.
pub open spec fn span_start(items: Seq<ChunkNode>, cur: Cur) -> u32 {
    if cur.index < items.len() {
        cnode_location(items[cur.index as int]).start
    } else {
        cur.previous_end
    }
}

/// The span of what a parse read: from where it started to the end of the last item it read,
/// or an empty span where it stood when it read nothing.
pub open spec fn span_since(start: u32, before: u32, after: Cur) -> Span {
    if after.previous_end == before {
        Span { start: before, end: before }
    } else {
        Span { start, end: after.previous_end }
    }
}

/// Reading a token of `kind` with role `role`: its span, or the error of expecting `e` here.
pub open spec fn s_require(
    items: Seq<ChunkNode>,
    cur: Cur,
    out: Out,
    kind: NonBracketTokenKind,
    role: IsographSemanticToken,
    e: Expectation,
) -> (Result<Span, WithSpan<ParseError>>, Cur, Out) {
    if next_is_token(items, cur, kind) {
        let (c, o) = commit(items, cur, out, role);
        (Ok(cnode_location(items[cur.index as int])), c, o)
    } else {
        (Err(expected_here(items, cur, e)), cur, out)
    }
}

/// Sequential reader of one chunk.
pub struct ItemCursor<'a> {
    pub items: &'a NonEmptyVec<WithSpan<ChunkContentItem>>,
    /// Whether the first item was read.
    pub started: bool,
    /// How many items after the first were read.
    pub tail_read: usize,
    /// The end of the last item read (the chunk's start before any).
    pub previous_end: u32,
}

impl<'a> ItemCursor<'a> {
    /// The position of the next item to read.
    pub open spec fn index(&self) -> nat {
        if self.started {
            (self.tail_read + 1) as nat
        } else {
            0
        }
    }

    pub open spec fn cur(&self) -> Cur {
        Cur { index: self.index(), previous_end: self.previous_end }
    }

    pub open spec fn nodes(&self) -> Seq<ChunkNode> {
        contents_view(*self.items)
    }

    pub open spec fn wf(&self) -> bool {
        &&& self.tail_read <= self.items.tail.len()
        &&& !self.started ==> self.tail_read == 0
    }
}

/// What parsing has produced so far.
pub struct ParseOutput {
    pub tokens: Vec<WithSpan<IsographSemanticToken>>,
    pub errors: Vec<WithSpan<ParseError>>,
}

impl ParseOutput {
    pub open spec fn view(&self) -> Out {
        Out { tokens: self.tokens@, errors: self.errors@ }
    }
}

pub proof fn lemma_contents_view(ne: NonEmptyVec<WithSpan<ChunkContentItem>>)
    ensures
        contents_view(ne).len() == ne.spec_elements().len(),
        forall|i: int| 0 <= i < ne.spec_elements().len() ==> #[trigger] contents_view(ne)[i] == chunk_node_of(ne.spec_elements()[i]),
{
    crate::chunk::lemma_chunk_nodes_of_len(ne.tail@);
    assert forall|i: int| 0 <= i < ne.spec_elements().len() implies #[trigger] contents_view(ne)[i] == chunk_node_of(ne.spec_elements()[i]) by {
        if i > 0 {
            assert(ne.spec_elements()[i] == ne.tail@[i - 1]);
        }
    }
}

impl<'a> ItemCursor<'a> {
    /// A reader at the start of a chunk's contents.
    pub fn new(items: &'a NonEmptyVec<WithSpan<ChunkContentItem>>) -> (c: Self)
        ensures
            c.items == items,
            c.cur() == start_cur(contents_view(*items)),
            c.wf(),
    {
        proof {
            lemma_contents_view(*items);
        }
        ItemCursor { items, started: false, tail_read: 0, previous_end: items.first().location.start }
    }

    /// The next item, if any.
    pub fn peek(&self) -> (r: Option<&'a WithSpan<ChunkContentItem>>)
        requires
            self.wf(),
        ensures
            r is Some <==> self.index() < self.nodes().len(),
            r matches Some(item) ==> chunk_node_of(*item) == self.nodes()[self.index() as int],
    {
        proof {
            lemma_contents_view(*self.items);
        }
        if !self.started {
            Some(&self.items.head)
        } else if self.tail_read < self.items.tail.len() {
            Some(&self.items.tail[self.tail_read])
        } else {
            None
        }
    }

    /// The position of the next item.
    pub fn position(&self) -> (i: usize)
        requires
            self.wf(),
            self.index() < self.nodes().len(),
        ensures
            i == self.index(),
    {
        proof {
            lemma_contents_view(*self.items);
        }
        if !self.started {
            0
        } else {
            self.tail_read + 1
        }
    }

    /// Moves past the next item, recording no role for it.
    pub fn advance(&mut self)
        requires
            old(self).wf(),
            old(self).index() < old(self).nodes().len(),
        ensures
            final(self).items == old(self).items,
            final(self).wf(),
            final(self).cur() == advance(old(self).nodes(), old(self).cur()),
    {
        proof {
            lemma_contents_view(*self.items);
        }
        let item = if !self.started {
            self.started = true;
            &self.items.head
        } else {
            let i = self.tail_read;
            self.tail_read = i + 1;
            &self.items.tail[i]
        };
        self.previous_end = item.location.end;
    }

    /// Advances past the next item, recording its semantic token.
    pub fn commit(&mut self, out: &mut ParseOutput, role: IsographSemanticToken) -> (r: &'a WithSpan<ChunkContentItem>)
        requires
            old(self).wf(),
            old(self).index() < old(self).nodes().len(),
        ensures
            only_appends(old(out).view(), final(out).view()),
        adds_no_empty_literal(old(out).view(), final(out).view()),
            final(self).items == old(self).items,
            final(self).wf(),
            (final(self).cur(), final(out).view()) == commit(old(self).nodes(), old(self).cur(), old(out).view(), role),
            chunk_node_of(*r) == old(self).nodes()[old(self).index() as int],
    {
        proof {
            lemma_contents_view(*self.items);
        }
        let item = if !self.started {
            self.started = true;
            &self.items.head
        } else {
            let i = self.tail_read;
            self.tail_read = i + 1;
            &self.items.tail[i]
        };
        self.previous_end = item.location.end;
        let span = match &item.item {
            ChunkContentItem::NonBracket(_) => item.location,
            ChunkContentItem::Group(group) => group.opening.location,
        };
        out.tokens.push(WithSpan { item: role, location: span });
        item
    }

    /// Consumes the next item when it is a token of `kind`, recording `role` for it; its span.
    pub fn consume_token_if(&mut self, out: &mut ParseOutput, kind: NonBracketTokenKind, role: IsographSemanticToken) -> (r: Option<Span>)
        requires
            old(self).wf(),
        ensures
            only_appends(old(out).view(), final(out).view()),
        adds_no_empty_literal(old(out).view(), final(out).view()),
            final(self).items == old(self).items,
            final(self).wf(),
            next_is_token(old(self).nodes(), old(self).cur(), kind) ==> {
                &&& (final(self).cur(), final(out).view()) == commit(old(self).nodes(), old(self).cur(), old(out).view(), role)
                &&& r == Some(cnode_location(old(self).nodes()[old(self).index() as int]))
            },
            !next_is_token(old(self).nodes(), old(self).cur(), kind) ==> {
                &&& final(self).cur() == old(self).cur()
                &&& final(out).view() == old(out).view()
                &&& r is None
            },
    {
        match self.peek() {
            Some(item) => {
                let matches = match &item.item {
                    ChunkContentItem::NonBracket(found) => found.0 == kind,
                    _ => false,
                };
                if matches {
                    let item = self.commit(out, role);
                    Some(item.location)
                } else {
                    None
                }
            },
            None => None,
        }
    }

    /// Reads a token of `kind`, recording `role` for it; its span, or the error of expecting
    /// `e` here.
    pub fn require_token(
        &mut self,
        out: &mut ParseOutput,
        kind: NonBracketTokenKind,
        role: IsographSemanticToken,
        e: Expectation,
    ) -> (r: Result<Span, WithSpan<ParseError>>)
        requires
            old(self).wf(),
        ensures
            r matches Err(e) ==> e.item != ParseError::EmptyLiteral,
            only_appends(old(out).view(), final(out).view()),
        adds_no_empty_literal(old(out).view(), final(out).view()),
            final(self).items == old(self).items,
            final(self).wf(),
            (r, final(self).cur(), final(out).view()) == s_require(
                old(self).nodes(),
                old(self).cur(),
                old(out).view(),
                kind,
                role,
                e,
            ),
    {
        match self.consume_token_if(out, kind, role) {
            Some(span) => Ok(span),
            None => Err(self.expected(e)),
        }
    }

    /// Whether the next item is a token of `kind`.
    pub fn at_token(&self, kind: NonBracketTokenKind) -> (b: bool)
        requires
            self.wf(),
        ensures
            b == next_is_token(self.nodes(), self.cur(), kind),
    {
        match self.peek() {
            Some(item) => match &item.item {
                ChunkContentItem::NonBracket(found) => found.0 == kind,
                _ => false,
            },
            None => false,
        }
    }

    /// Whether the next item is a group opened by `kind`.
    pub fn at_group(&self, kind: BracketKind) -> (b: bool)
        requires
            self.wf(),
        ensures
            b == next_is_group(self.nodes(), self.cur(), kind),
    {
        match self.peek() {
            Some(item) => match &item.item {
                ChunkContentItem::Group(group) => group.opening.item.0 == kind,
                _ => false,
            },
            None => false,
        }
    }

    /// The error of expecting `expected` at the reader's position.
    pub fn expected(&self, expected: Expectation) -> (e: WithSpan<ParseError>)
        requires
            self.wf(),
        ensures
            e == expected_here(self.nodes(), self.cur(), expected),
    {
        match self.peek() {
            None => WithSpan {
                item: ParseError::expected(expected, Found::EndOfChunk),
                location: Span::new(self.previous_end, self.previous_end),
            },
            Some(item) => WithSpan {
                item: ParseError::expected(expected, crate::chunk::found_of(&item.item)),
                location: item.location,
            },
        }
    }

    /// `Ok` when every item was read, `Err` while one is left.
    pub fn require_end(&self) -> (r: Result<(), ()>)
        requires
            self.wf(),
        ensures
            r is Ok <==> self.index() == self.nodes().len(),
    {
        proof {
            lemma_contents_view(*self.items);
        }
        match self.peek() {
            None => Ok(()),
            Some(_) => Err(()),
        }
    }

    /// Copies of the items not read yet, `None` when every item was read. The reader then
    /// stands at the end; it records no role and keeps the end of the last item it advanced past.
    pub fn remaining_contents(&mut self) -> (r: Option<nonempty::NonEmpty<WithSpan<ChunkContentItem>>>)
        requires
            old(self).wf(),
        ensures
            final(self).items == old(self).items,
            final(self).wf(),
            final(self).index() == old(self).nodes().len(),
            final(self).previous_end == old(self).previous_end,
            old(self).index() == old(self).nodes().len() ==> r is None,
            old(self).index() < old(self).nodes().len() ==> (r matches Some(l) && chunk_nodes_of(
                content_items_held(l),
            ) == old(self).nodes().skip(old(self).index() as int)),
    {
        proof {
            lemma_contents_view(*self.items);
        }
        match self.peek() {
            None => None,
            Some(_) => {
                let index = self.position();
                let rest = unread_items_from(self.items, index);
                self.started = true;
                self.tail_read = self.items.tail.len();
                Some(rest)
            },
        }
    }

    /// Where a parse that starts here starts.
    pub fn span_start(&self) -> (s: u32)
        requires
            self.wf(),
        ensures
            s == span_start(self.nodes(), self.cur()),
    {
        match self.peek() {
            Some(item) => item.location.start,
            None => self.previous_end,
        }
    }

    /// The span a parse read, given where it started and where the reader stood before it.
    pub fn span_since(&self, start: u32, before: u32) -> (s: Span)
        ensures
            s == span_since(start, before, self.cur()),
    {
        if self.previous_end == before {
            Span::new(before, before)
        } else {
            Span::new(start, self.previous_end)
        }
    }
}

impl ParseOutput {
    pub fn report_error(&mut self, error: WithSpan<ParseError>)
        ensures
            final(self).view() == report(old(self).view(), error),
            only_appends(old(self).view(), final(self).view()),
            error.item != ParseError::EmptyLiteral ==> adds_no_empty_literal(old(self).view(), final(self).view()),
    {
        self.errors.push(error);
    }

    pub fn record(&mut self, role: IsographSemanticToken, span: Span)
        ensures
            final(self).view() == record(old(self).view(), role, span),
            only_appends(old(self).view(), final(self).view()),
            adds_no_empty_literal(old(self).view(), final(self).view()),
    {
        self.tokens.push(WithSpan { item: role, location: span });
    }
}

} // verus!
