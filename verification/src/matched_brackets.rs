use vstd::prelude::*;

use crate::non_bracket_token::{
    spec_split, split_token, BracketKind, BracketToken, NonBracketTokenKind, SplitToken,
};
use crate::span::{Span, WithSpan};
use crate::token_kind::IsographLangTokenKind;

verus! {

/// One level: the whole literal at the root, a group's interior below.
#[derive(Debug, PartialEq, Eq)]
pub struct MatchedBrackets(pub Vec<WithSpan<BracketItem>>);

/// An item of a level: a token that is not a bracket, or a matched group.
#[derive(Debug, PartialEq, Eq)]
pub enum BracketItem {
    Raw(NonBracketToken),
    Bracketed(Bracketed),
}

/// A matched pair of brackets and what they enclose.
#[derive(Debug, PartialEq, Eq)]
pub struct Bracketed {
    pub opening: WithSpan<OpenBracket>,
    /// The wrapping `WithSpan`'s span runs from the opening's end to the closing's start.
    pub children: WithSpan<MatchedBrackets>,
    pub closing: WithSpan<CloseBracket>,
}

/// A token that is not a bracket.
#[derive(Copy, Clone, Debug, PartialEq, Eq, Structural)]
pub struct NonBracketToken(pub NonBracketTokenKind);

/// An opening bracket: a group's own opening.
#[derive(Copy, Clone, Debug, PartialEq, Eq, Structural)]
pub struct OpenBracket(pub BracketKind);

/// A closing bracket: a group's own closing.
#[derive(Copy, Clone, Debug, PartialEq, Eq, Structural)]
pub struct CloseBracket(pub BracketKind);

/// The matcher's errors, returned beside the tree, in source order. The tree cannot
/// represent them: each cut its level at its position.
#[derive(Copy, Clone, Debug, PartialEq, Eq)]
pub enum BracketError {
    /// An open bracket whose close never came.
    UnmatchedOpen(WithSpan<OpenBracket>),
    /// A close bracket no enclosing group owns.
    UnmatchedClose(WithSpan<CloseBracket>),
}

impl BracketError {
    /// Where the offending bracket starts.
    pub open spec fn spec_start(self) -> u32 {
        match self {
            BracketError::UnmatchedOpen(open) => open.location.start,
            BracketError::UnmatchedClose(close) => close.location.start,
        }
    }

    /// Where the offending bracket starts.
    pub fn start(&self) -> (s: u32)
        ensures
            s == self.spec_start(),
    {
        match self {
            BracketError::UnmatchedOpen(open) => open.location.start,
            BracketError::UnmatchedClose(close) => close.location.start,
        }
    }

    /// The offending bracket's span.
    pub fn location(&self) -> (s: Span)
        ensures
            s == (match *self {
                BracketError::UnmatchedOpen(open) => open.location,
                BracketError::UnmatchedClose(close) => close.location,
            }),
    {
        match self {
            BracketError::UnmatchedOpen(open) => open.location,
            BracketError::UnmatchedClose(close) => close.location,
        }
    }

    pub open spec fn spec_message(self) -> Seq<char> {
        match self {
            BracketError::UnmatchedOpen(open) => "Unclosed "@ + open.item.0.spec_opening(),
            BracketError::UnmatchedClose(close) => "Unexpected "@ + close.item.0.spec_opening(),
        }
    }

    /// The diagnostic text of the error.
    pub fn message(&self) -> (r: String)
        ensures
            r@ == self.spec_message(),
    {
        match self {
            BracketError::UnmatchedOpen(open) => {
                let mut r = String::from_str("Unclosed ");
                r.append(open.item.0.opening());
                r
            },
            BracketError::UnmatchedClose(close) => {
                let mut r = String::from_str("Unexpected ");
                r.append(close.item.0.opening());
                r
            },
        }
    }
}

/// The abstract value of a bracket-tree item.
pub enum BracketNode {
    Raw { kind: NonBracketTokenKind, location: Span },
    Group {
        opening: WithSpan<OpenBracket>,
        children: Seq<BracketNode>,
        interior: Span,
        closing: WithSpan<CloseBracket>,
        location: Span,
    },
}

/// The abstract value of an item of a bracket tree.
pub open spec fn node_of(i: WithSpan<BracketItem>) -> BracketNode
    decreases i,
{
    match i.item {
        BracketItem::Raw(t) => BracketNode::Raw { kind: t.0, location: i.location },
        BracketItem::Bracketed(b) => BracketNode::Group {
            opening: b.opening,
            children: nodes_of(b.children.item.0@),
            interior: b.children.location,
            closing: b.closing,
            location: i.location,
        },
    }
}

/// The abstract values of the items of a level.
pub open spec fn nodes_of(s: Seq<WithSpan<BracketItem>>) -> Seq<BracketNode>
    decreases s,
{
    if s.len() == 0 {
        seq![]
    } else {
        nodes_of(s.subrange(0, s.len() - 1)).push(node_of(s[s.len() - 1]))
    }
}

pub proof fn lemma_nodes_of_push(s: Seq<WithSpan<BracketItem>>, x: WithSpan<BracketItem>)
    ensures
        nodes_of(s.push(x)) == nodes_of(s).push(node_of(x)),
{
    assert(s.push(x).subrange(0, s.len() as int) =~= s);
}

pub proof fn lemma_nodes_of_len(s: Seq<WithSpan<BracketItem>>)
    ensures
        nodes_of(s).len() == s.len(),
        forall|i: int| 0 <= i < s.len() ==> #[trigger] nodes_of(s)[i] == node_of(s[i]),
    decreases s.len(),
{
    if s.len() > 0 {
        let t = s.subrange(0, s.len() - 1);
        lemma_nodes_of_len(t);
        assert forall|i: int| 0 <= i < s.len() implies #[trigger] nodes_of(s)[i] == node_of(s[i]) by {
            if i < s.len() - 1 {
                assert(t[i] == s[i]);
            }
        }
    }
}

proof fn lemma_nodes_of_skip(s: Seq<WithSpan<BracketItem>>, n: int)
    requires
        0 <= n <= s.len(),
    ensures
        nodes_of(s.skip(n)) == nodes_of(s).skip(n),
{
    lemma_nodes_of_len(s);
    lemma_nodes_of_len(s.skip(n));
    assert(nodes_of(s.skip(n)) =~= nodes_of(s).skip(n));
}

/// Whether an item is a line-break token.
pub open spec fn is_line_break(n: BracketNode) -> bool {
    n matches BracketNode::Raw { kind: NonBracketTokenKind::LineBreak, .. }
}

/// The number of line-break tokens a level starts with.
pub open spec fn leading_line_breaks(items: Seq<BracketNode>) -> nat
    decreases items.len(),
{
    if items.len() > 0 && is_line_break(items[0]) {
        1 + leading_line_breaks(items.drop_first())
    } else {
        0
    }
}

/// A level without its leading line breaks: the opening bracket (or the literal's start) that
/// leads a level captures them, as insignificant whitespace.
pub open spec fn strip_line_breaks(items: Seq<BracketNode>) -> Seq<BracketNode> {
    items.skip(leading_line_breaks(items) as int)
}

/// A group the matcher has opened and not yet closed.
pub struct FrameView {
    pub kind: BracketKind,
    pub opening: Span,
    pub items: Seq<BracketNode>,
    pub emitting: bool,
}

/// The matcher's state between two tokens: the root level, the open groups innermost last, and
/// the errors so far. A level that is not emitting was cut by an unmatched bracket.
pub struct MatchView {
    pub root: Seq<BracketNode>,
    pub root_emitting: bool,
    pub frames: Seq<FrameView>,
    pub errors: Seq<BracketError>,
}

pub open spec fn initial_match() -> MatchView {
    MatchView { root: seq![], root_emitting: true, frames: seq![], errors: seq![] }
}

/// The state with `n` appended to the innermost level, if that level still emits.
pub open spec fn push_node(st: MatchView, n: BracketNode) -> MatchView {
    if st.frames.len() == 0 {
        if st.root_emitting {
            MatchView { root: st.root.push(n), ..st }
        } else {
            st
        }
    } else {
        let f = st.frames.last();
        if f.emitting {
            MatchView {
                frames: st.frames.update(
                    st.frames.len() - 1,
                    FrameView { items: f.items.push(n), ..f },
                ),
                ..st
            }
        } else {
            st
        }
    }
}

/// The state with the innermost level cut.
pub open spec fn cut(st: MatchView) -> MatchView {
    if st.frames.len() == 0 {
        MatchView { root_emitting: false, ..st }
    } else {
        let f = st.frames.last();
        MatchView {
            frames: st.frames.update(st.frames.len() - 1, FrameView { emitting: false, ..f }),
            ..st
        }
    }
}

/// The innermost open group dropped as unclosed: its error recorded, its parent cut.
pub open spec fn pop_unclosed(st: MatchView) -> MatchView {
    let f = st.frames.last();
    cut(
        MatchView {
            frames: st.frames.drop_last(),
            errors: st.errors.push(
                BracketError::UnmatchedOpen(
                    WithSpan { item: OpenBracket(f.kind), location: f.opening },
                ),
            ),
            ..st
        },
    )
}

/// Every open group deeper than `depth` dropped as unclosed, innermost first.
pub open spec fn unwind_to(st: MatchView, depth: nat) -> MatchView
    decreases st.frames.len(),
{
    if st.frames.len() <= depth {
        st
    } else {
        unwind_to(pop_unclosed(st), depth)
    }
}

/// The group a closing bracket at `closing` closes.
pub open spec fn closed_group(f: FrameView, closing: Span) -> BracketNode {
    BracketNode::Group {
        opening: WithSpan { item: OpenBracket(f.kind), location: f.opening },
        children: strip_line_breaks(f.items),
        interior: Span::spec_between(f.opening, closing),
        closing: WithSpan { item: CloseBracket(f.kind), location: closing },
        location: Span::spec_join(f.opening, closing),
    }
}

/// The innermost open group closed by a bracket at `closing`, and appended to its parent.
pub open spec fn close_top(st: MatchView, closing: Span) -> MatchView {
    let f = st.frames.last();
    push_node(MatchView { frames: st.frames.drop_last(), ..st }, closed_group(f, closing))
}

/// The index of the innermost open group of kind `k`.
pub open spec fn innermost(frames: Seq<FrameView>, k: BracketKind) -> Option<nat>
    decreases frames.len(),
{
    if frames.len() == 0 {
        None
    } else if frames.last().kind == k {
        Some((frames.len() - 1) as nat)
    } else {
        innermost(frames.drop_last(), k)
    }
}

/// The matcher's state after one more token. A non-bracket token joins the innermost level; an
/// opening bracket opens a group; a closing bracket closes the innermost open group of its kind,
/// every group inside that one being unclosed, or, when no open group has its kind, is an error
/// that cuts the innermost level.
pub open spec fn step(st: MatchView, tok: WithSpan<IsographLangTokenKind>) -> MatchView {
    match spec_split(tok.item) {
        SplitToken::NonBracket(k) => push_node(
            st,
            BracketNode::Raw { kind: k, location: tok.location },
        ),
        SplitToken::Bracket(BracketToken::Open(k)) => MatchView {
            frames: st.frames.push(
                FrameView { kind: k, opening: tok.location, items: seq![], emitting: true },
            ),
            ..st
        },
        SplitToken::Bracket(BracketToken::Close(k)) => match innermost(st.frames, k) {
            None => {
                let c = cut(st);
                MatchView {
                    errors: c.errors.push(
                        BracketError::UnmatchedClose(
                            WithSpan { item: CloseBracket(k), location: tok.location },
                        ),
                    ),
                    ..c
                }
            },
            Some(j) => close_top(unwind_to(st, j + 1), tok.location),
        },
    }
}

/// The matcher's state after the first `n` tokens.
pub open spec fn run(tokens: Seq<WithSpan<IsographLangTokenKind>>, n: nat) -> MatchView
    decreases n,
{
    if n == 0 || n > tokens.len() {
        initial_match()
    } else {
        step(run(tokens, (n - 1) as nat), tokens[n - 1])
    }
}

/// `errors` with `e` placed after every error that starts no later than it.
pub open spec fn insert_by_start(sorted: Seq<BracketError>, e: BracketError) -> Seq<BracketError>
    decreases sorted.len(),
{
    if sorted.len() == 0 {
        seq![e]
    } else if sorted.last().spec_start() <= e.spec_start() {
        sorted.push(e)
    } else {
        insert_by_start(sorted.drop_last(), e).push(sorted.last())
    }
}

/// The errors in order of their start, errors that start together kept in their order.
pub open spec fn sort_by_start(errors: Seq<BracketError>) -> Seq<BracketError>
    decreases errors.len(),
{
    if errors.len() == 0 {
        seq![]
    } else {
        insert_by_start(sort_by_start(errors.drop_last()), errors.last())
    }
}

/// The level the whole literal forms, once every token is read and every open group dropped.
pub open spec fn spec_root(tokens: Seq<WithSpan<IsographLangTokenKind>>) -> Seq<BracketNode> {
    strip_line_breaks(unwind_to(run(tokens, tokens.len()), 0).root)
}

/// The matcher's errors, in order of their start.
pub open spec fn spec_bracket_errors(tokens: Seq<WithSpan<IsographLangTokenKind>>) -> Seq<BracketError> {
    sort_by_start(unwind_to(run(tokens, tokens.len()), 0).errors)
}

/// A group the matcher has opened and not yet closed.
struct Frame {
    kind: BracketKind,
    opening: Span,
    items: Vec<WithSpan<BracketItem>>,
    emitting: bool,
}

impl Frame {
    closed spec fn view(&self) -> FrameView {
        FrameView {
            kind: self.kind,
            opening: self.opening,
            items: nodes_of(self.items@),
            emitting: self.emitting,
        }
    }
}

spec fn frames_view(frames: Seq<Frame>) -> Seq<FrameView> {
    frames.map_values(|f: Frame| f.view())
}

/// The matcher's state between two tokens.
struct MatchState {
    root: Vec<WithSpan<BracketItem>>,
    root_emitting: bool,
    frames: Vec<Frame>,
    errors: Vec<BracketError>,
}

impl MatchState {
    closed spec fn view(&self) -> MatchView {
        MatchView {
            root: nodes_of(self.root@),
            root_emitting: self.root_emitting,
            frames: frames_view(self.frames@),
            errors: self.errors@,
        }
    }
}

proof fn lemma_frames_view_replace_last(frames: Seq<Frame>, f: Frame)
    requires
        frames.len() > 0,
    ensures
        frames_view(frames.drop_last().push(f)) == frames_view(frames).update(
            frames.len() - 1,
            f.view(),
        ),
        frames_view(frames.drop_last()) == frames_view(frames).drop_last(),
{
    assert(frames_view(frames.drop_last().push(f)) =~= frames_view(frames).update(
        frames.len() - 1,
        f.view(),
    ));
    assert(frames_view(frames.drop_last()) =~= frames_view(frames).drop_last());
}

proof fn lemma_frames_view_push(frames: Seq<Frame>, f: Frame)
    ensures
        frames_view(frames.push(f)) == frames_view(frames).push(f.view()),
{
    assert(frames_view(frames.push(f)) =~= frames_view(frames).push(f.view()));
}

fn push_item(st: &mut MatchState, item: WithSpan<BracketItem>)
    ensures
        final(st).view() == push_node(old(st).view(), node_of(item)),
{
    proof {
        lemma_nodes_of_push(st.root@, item);
    }
    if st.frames.len() == 0 {
        if st.root_emitting {
            st.root.push(item);
        }
    } else {
        let ghost frames0 = st.frames@;
        let mut f = st.frames.pop().unwrap();
        proof {
            assert(frames0.last() == f);
            assert(st.frames@ == frames0.drop_last());
            lemma_nodes_of_push(f.items@, item);
        }
        if f.emitting {
            f.items.push(item);
        }
        st.frames.push(f);
        proof {
            lemma_frames_view_replace_last(frames0, f);
            if !f.emitting {
                assert(frames_view(frames0).update(frames0.len() - 1, f.view()) =~= frames_view(
                    frames0,
                ));
            }
        }
    }
}

fn cut_top(st: &mut MatchState)
    ensures
        final(st).view() == cut(old(st).view()),
        final(st).frames.len() == old(st).frames.len(),
{
    if st.frames.len() == 0 {
        st.root_emitting = false;
    } else {
        let ghost frames0 = st.frames@;
        let mut f = st.frames.pop().unwrap();
        proof {
            assert(frames0.last() == f);
        }
        f.emitting = false;
        st.frames.push(f);
        proof {
            lemma_frames_view_replace_last(frames0, f);
        }
    }
}

fn drop_unclosed(st: &mut MatchState)
    requires
        old(st).frames.len() > 0,
    ensures
        final(st).view() == pop_unclosed(old(st).view()),
        final(st).frames.len() == old(st).frames.len() - 1,
{
    let ghost frames0 = st.frames@;
    let f = st.frames.pop().unwrap();
    proof {
        assert(frames0.last() == f);
        assert(st.frames@ == frames0.drop_last());
        lemma_frames_view_replace_last(frames0, f);
        assert(frames_view(frames0).last() == f.view());
    }
    st.errors.push(BracketError::UnmatchedOpen(WithSpan { item: OpenBracket(f.kind), location: f.opening }));
    cut_top(st);
}

fn unwind(st: &mut MatchState, depth: usize)
    ensures
        final(st).view() == unwind_to(old(st).view(), depth as nat),
{
    while st.frames.len() > depth
        invariant
            unwind_to(st.view(), depth as nat) == unwind_to(old(st).view(), depth as nat),
        decreases st.frames.len(),
    {
        drop_unclosed(st);
    }
}

fn innermost_index(frames: &Vec<Frame>, k: BracketKind) -> (r: Option<usize>)
    ensures
        r matches Some(j) ==> innermost(frames_view(frames@), k) == Some(j as nat) && j < frames.len(),
        r is None ==> innermost(frames_view(frames@), k) is None,
{
    let mut i = frames.len();
    proof {
        assert(frames@.subrange(0, i as int) =~= frames@);
    }
    while i > 0
        invariant
            i <= frames.len(),
            innermost(frames_view(frames@), k) == innermost(frames_view(frames@.subrange(0, i as int)), k),
        decreases i,
    {
        let ghost fv = frames_view(frames@.subrange(0, i as int));
        proof {
            assert(fv.last() == frames@[i - 1].view());
            assert(fv.drop_last() =~= frames_view(frames@.subrange(0, i - 1)));
        }
        if frames[i - 1].kind == k {
            return Some(i - 1);
        }
        i -= 1;
    }
    proof {
        assert(frames_view(frames@.subrange(0, 0)) =~= Seq::<FrameView>::empty());
    }
    None
}

fn leading_line_break_count(items: &Vec<WithSpan<BracketItem>>) -> (n: usize)
    ensures
        n == leading_line_breaks(nodes_of(items@)),
        n <= items.len(),
{
    let ghost ns = nodes_of(items@);
    proof {
        lemma_nodes_of_len(items@);
    }
    let mut i: usize = 0;
    while i < items.len()
        invariant
            i <= items.len(),
            ns == nodes_of(items@),
            ns.len() == items.len(),
            forall|k: int| 0 <= k < i ==> is_line_break(#[trigger] ns[k]),
        decreases items.len() - i,
    {
        let is_break = match &items[i].item {
            BracketItem::Raw(NonBracketToken(NonBracketTokenKind::LineBreak)) => true,
            _ => false,
        };
        proof {
            lemma_nodes_of_len(items@);
            assert(ns[i as int] == node_of(items@[i as int]));
        }
        if !is_break {
            proof {
                lemma_leading_line_breaks_is(ns, i as int);
            }
            return i;
        }
        i += 1;
    }
    proof {
        lemma_leading_line_breaks_is(ns, i as int);
    }
    i
}

proof fn lemma_leading_line_breaks_is(items: Seq<BracketNode>, n: int)
    requires
        0 <= n <= items.len(),
        forall|k: int| 0 <= k < n ==> is_line_break(#[trigger] items[k]),
        n == items.len() || !is_line_break(items[n]),
    ensures
        leading_line_breaks(items) == n,
    decreases n,
{
    if n > 0 {
        let t = items.drop_first();
        assert forall|k: int| 0 <= k < n - 1 implies is_line_break(#[trigger] t[k]) by {
            assert(t[k] == items[k + 1]);
        }
        lemma_leading_line_breaks_is(t, n - 1);
    }
}

fn strip_captured_line_breaks(items: &mut Vec<WithSpan<BracketItem>>)
    ensures
        nodes_of(final(items)@) == strip_line_breaks(nodes_of(old(items)@)),
{
    let captured = leading_line_break_count(items);
    let rest = items.split_off(captured);
    proof {
        lemma_nodes_of_skip(old(items)@, captured as int);
        assert(rest@ =~= old(items)@.skip(captured as int));
    }
    *items = rest;
}

fn close_innermost(st: &mut MatchState, closing: Span)
    requires
        old(st).frames.len() > 0,
    ensures
        final(st).view() == close_top(old(st).view(), closing),
{
    let ghost frames0 = st.frames@;
    let f = st.frames.pop().unwrap();
    proof {
        assert(frames0.last() == f);
        lemma_frames_view_replace_last(frames0, f);
        assert(frames_view(frames0).last() == f.view());
    }
    let Frame { kind, opening, items, emitting: _ } = f;
    let mut children = items;
    strip_captured_line_breaks(&mut children);
    let group = Bracketed {
        opening: WithSpan { item: OpenBracket(kind), location: opening },
        children: WithSpan { item: MatchedBrackets(children), location: Span::between(opening, closing) },
        closing: WithSpan { item: CloseBracket(kind), location: closing },
    };
    let item = WithSpan { item: BracketItem::Bracketed(group), location: Span::join(opening, closing) };
    proof {
        assert(node_of(item) == closed_group(f.view(), closing));
    }
    push_item(st, item);
}

pub proof fn lemma_unwind_len(st: MatchView, depth: nat)
    ensures
        st.frames.len() >= depth ==> unwind_to(st, depth).frames.len() == depth,
        st.frames.len() < depth ==> unwind_to(st, depth) == st,
    decreases st.frames.len(),
{
    if st.frames.len() > depth {
        lemma_unwind_len(pop_unclosed(st), depth);
    }
}

pub proof fn lemma_innermost_bound(frames: Seq<FrameView>, k: BracketKind)
    ensures
        innermost(frames, k) matches Some(j) ==> j < frames.len() && frames[j as int].kind == k,
    decreases frames.len(),
{
    if frames.len() > 0 && frames.last().kind != k {
        lemma_innermost_bound(frames.drop_last(), k);
    }
}

proof fn lemma_insert_over_larger(a: Seq<BracketError>, b: Seq<BracketError>, e: BracketError)
    requires
        forall|k: int| 0 <= k < b.len() ==> (#[trigger] b[k]).spec_start() > e.spec_start(),
    ensures
        insert_by_start(a + b, e) == insert_by_start(a, e) + b,
    decreases b.len(),
{
    if b.len() == 0 {
        assert(a + b =~= a);
        assert(insert_by_start(a, e) + b =~= insert_by_start(a, e));
    } else {
        let b2 = b.drop_last();
        assert((a + b).drop_last() =~= a + b2);
        assert((a + b).last() == b.last());
        lemma_insert_over_larger(a, b2, e);
        assert(insert_by_start(a, e) + b =~= (insert_by_start(a, e) + b2).push(b.last()));
    }
}

fn insert_error(out: &mut Vec<BracketError>, e: BracketError)
    ensures
        final(out)@ == insert_by_start(old(out)@, e),
{
    let mut pos = out.len();
    while pos > 0 && out[pos - 1].start() > e.start()
        invariant
            pos <= out.len(),
            out@ == old(out)@,
            forall|k: int| pos <= k < out.len() ==> (#[trigger] out@[k]).spec_start() > e.spec_start(),
        decreases pos,
    {
        pos -= 1;
    }
    let ghost a = out@.take(pos as int);
    let ghost b = out@.skip(pos as int);
    proof {
        assert(a + b =~= out@);
        assert forall|k: int| 0 <= k < b.len() implies (#[trigger] b[k]).spec_start() > e.spec_start() by {
            assert(b[k] == out@[pos + k]);
        }
        lemma_insert_over_larger(a, b, e);
        if pos > 0 {
            assert(a.last() == out@[pos - 1]);
        }
    }
    out.insert(pos, e);
    proof {
        assert(out@ =~= a.push(e) + b);
        if pos == 0 {
            assert(a.push(e) =~= seq![e]);
        }
    }
}

fn sort_errors(errors: &Vec<BracketError>) -> (out: Vec<BracketError>)
    ensures
        out@ == sort_by_start(errors@),
{
    let mut out: Vec<BracketError> = Vec::new();
    let mut i: usize = 0;
    proof {
        assert(errors@.subrange(0, 0) =~= Seq::<BracketError>::empty());
    }
    while i < errors.len()
        invariant
            i <= errors.len(),
            out@ == sort_by_start(errors@.subrange(0, i as int)),
        decreases errors.len() - i,
    {
        proof {
            let sub = errors@.subrange(0, i + 1);
            assert(sub.drop_last() =~= errors@.subrange(0, i as int));
            assert(sub.last() == errors@[i as int]);
        }
        insert_error(&mut out, errors[i]);
        i += 1;
    }
    proof {
        assert(errors@.subrange(0, i as int) =~= errors@);
    }
    out
}

/// Matches the brackets of a literal's tokens. A closing bracket closes the innermost open group
/// of its kind; groups inside that one, and groups never closed, are unmatched openings, and a
/// closing bracket no open group owns is an unmatched closing. Each unmatched bracket cuts its
/// level there: what follows in that level is read but not kept. The root's span is the whole
/// literal, leading and trailing whitespace included, which the tokens alone do not record;
/// hence the length parameter.
pub fn match_brackets(
    tokens: Vec<WithSpan<IsographLangTokenKind>>,
    literal_length: u32,
) -> (r: (WithSpan<MatchedBrackets>, Vec<BracketError>))
    ensures
        nodes_of(r.0.item.0@) == spec_root(tokens@),
        r.0.location == (Span { start: 0, end: literal_length }),
        r.1@ == spec_bracket_errors(tokens@),
{
    let mut st = MatchState {
        root: Vec::new(),
        root_emitting: true,
        frames: Vec::new(),
        errors: Vec::new(),
    };
    proof {
        assert(st.view().root =~= Seq::<BracketNode>::empty());
        assert(st.view().frames =~= Seq::<FrameView>::empty());
        assert(st.view() == run(tokens@, 0));
    }
    let mut i: usize = 0;
    while i < tokens.len()
        invariant
            i <= tokens.len(),
            st.view() == run(tokens@, i as nat),
        decreases tokens.len() - i,
    {
        let tok = tokens[i];
        match split_token(tok.item) {
            SplitToken::NonBracket(k) => {
                push_item(&mut st, WithSpan { item: BracketItem::Raw(NonBracketToken(k)), location: tok.location });
            },
            SplitToken::Bracket(BracketToken::Open(k)) => {
                let ghost frames0 = st.frames@;
                let f = Frame { kind: k, opening: tok.location, items: Vec::new(), emitting: true };
                proof {
                    assert(nodes_of(f.items@) =~= Seq::<BracketNode>::empty());
                    lemma_frames_view_push(frames0, f);
                }
                st.frames.push(f);
            },
            SplitToken::Bracket(BracketToken::Close(k)) => {
                match innermost_index(&st.frames, k) {
                    None => {
                        cut_top(&mut st);
                        st.errors.push(BracketError::UnmatchedClose(WithSpan { item: CloseBracket(k), location: tok.location }));
                    },
                    Some(j) => {
                        proof {
                            lemma_innermost_bound(st.view().frames, k);
                            lemma_unwind_len(st.view(), (j + 1) as nat);
                        }
                        unwind(&mut st, j + 1);
                        close_innermost(&mut st, tok.location);
                    },
                }
            },
        }
        i += 1;
    }
    unwind(&mut st, 0);
    let MatchState { root, root_emitting: _, frames: _, errors } = st;
    let mut root = root;
    strip_captured_line_breaks(&mut root);
    let sorted = sort_errors(&errors);
    (WithSpan { item: MatchedBrackets(root), location: Span::new(0, literal_length) }, sorted)
}

/// Whether a bracket-tree item is well formed: a group's opening and closing are of one kind,
/// its interior runs from the opening's end to the closing's start, its span from the opening's
/// start to the closing's end, and its interior is a well-formed level that does not start
/// with a line break.
pub open spec fn wf_node(n: BracketNode) -> bool
    decreases n,
{
    match n {
        BracketNode::Raw { .. } => true,
        BracketNode::Group { opening, children, interior, closing, location } => {
            &&& opening.item.0 == closing.item.0
            &&& interior == Span::spec_between(opening.location, closing.location)
            &&& location == Span::spec_join(opening.location, closing.location)
            &&& leading_line_breaks(children) == 0
            &&& wf_level(children)
        },
    }
}

/// Whether every item of a level is well formed.
pub open spec fn wf_level(items: Seq<BracketNode>) -> bool
    decreases items,
{
    if items.len() == 0 {
        true
    } else {
        wf_level(items.subrange(0, items.len() - 1)) && wf_node(items[items.len() - 1])
    }
}

proof fn lemma_wf_level_all(items: Seq<BracketNode>)
    ensures
        wf_level(items) <==> forall|i: int| 0 <= i < items.len() ==> wf_node(#[trigger] items[i]),
    decreases items.len(),
{
    if items.len() > 0 {
        let t = items.subrange(0, items.len() - 1);
        lemma_wf_level_all(t);
        if wf_level(items) {
            assert forall|i: int| 0 <= i < items.len() implies wf_node(#[trigger] items[i]) by {
                if i < items.len() - 1 {
                    assert(t[i] == items[i]);
                }
            }
        }
        if forall|i: int| 0 <= i < items.len() ==> wf_node(#[trigger] items[i]) {
            assert forall|i: int| 0 <= i < t.len() implies wf_node(#[trigger] t[i]) by {
                assert(t[i] == items[i]);
            }
        }
    }
}

pub proof fn lemma_leading_line_breaks_bound(items: Seq<BracketNode>)
    ensures
        leading_line_breaks(items) <= items.len(),
        leading_line_breaks(items) < items.len() ==> !is_line_break(
            items[leading_line_breaks(items) as int],
        ),
    decreases items.len(),
{
    if items.len() > 0 && is_line_break(items[0]) {
        lemma_leading_line_breaks_bound(items.drop_first());
        if leading_line_breaks(items) < items.len() {
            assert(items[leading_line_breaks(items) as int] == items.drop_first()[leading_line_breaks(
                items.drop_first(),
            ) as int]);
        }
    }
}

proof fn lemma_strip_wf(items: Seq<BracketNode>)
    requires
        wf_level(items),
    ensures
        wf_level(strip_line_breaks(items)),
        leading_line_breaks(strip_line_breaks(items)) == 0,
{
    lemma_leading_line_breaks_bound(items);
    lemma_wf_level_all(items);
    let s = strip_line_breaks(items);
    assert forall|i: int| 0 <= i < s.len() implies wf_node(#[trigger] s[i]) by {
        assert(s[i] == items[i + leading_line_breaks(items)]);
    }
    lemma_wf_level_all(s);
    if s.len() > 0 {
        assert(s[0] == items[leading_line_breaks(items) as int]);
    }
}

/// Every level of the state holds only well-formed items.
pub open spec fn wf_state(st: MatchView) -> bool {
    &&& wf_level(st.root)
    &&& forall|i: int| 0 <= i < st.frames.len() ==> wf_level(#[trigger] st.frames[i].items)
}

proof fn lemma_wf_push(items: Seq<BracketNode>, n: BracketNode)
    requires
        wf_level(items),
        wf_node(n),
    ensures
        wf_level(items.push(n)),
{
    assert(items.push(n).subrange(0, items.len() as int) =~= items);
}

proof fn lemma_wf_push_node(st: MatchView, n: BracketNode)
    requires
        wf_state(st),
        wf_node(n),
    ensures
        wf_state(push_node(st, n)),
{
    lemma_wf_push(st.root, n);
    if st.frames.len() > 0 {
        lemma_wf_push(st.frames.last().items, n);
    }
}

proof fn lemma_wf_cut(st: MatchView)
    requires
        wf_state(st),
    ensures
        wf_state(cut(st)),
{
}

proof fn lemma_wf_unwind(st: MatchView, depth: nat)
    requires
        wf_state(st),
    ensures
        wf_state(unwind_to(st, depth)),
    decreases st.frames.len(),
{
    if st.frames.len() > depth {
        let st2 = MatchView {
            frames: st.frames.drop_last(),
            errors: st.errors.push(
                BracketError::UnmatchedOpen(
                    WithSpan { item: OpenBracket(st.frames.last().kind), location: st.frames.last().opening },
                ),
            ),
            ..st
        };
        assert(wf_state(st2));
        lemma_wf_cut(st2);
        lemma_wf_unwind(pop_unclosed(st), depth);
    }
}

proof fn lemma_wf_step(st: MatchView, tok: WithSpan<IsographLangTokenKind>)
    requires
        wf_state(st),
    ensures
        wf_state(step(st, tok)),
{
    match spec_split(tok.item) {
        SplitToken::NonBracket(k) => {
            lemma_wf_push_node(st, BracketNode::Raw { kind: k, location: tok.location });
        },
        SplitToken::Bracket(BracketToken::Open(k)) => {
            let f = FrameView { kind: k, opening: tok.location, items: seq![], emitting: true };
            let st2 = MatchView { frames: st.frames.push(f), ..st };
            assert forall|i: int| 0 <= i < st2.frames.len() implies wf_level(
                #[trigger] st2.frames[i].items,
            ) by {
                if i < st.frames.len() {
                    assert(st2.frames[i] == st.frames[i]);
                }
            }
        },
        SplitToken::Bracket(BracketToken::Close(k)) => {
            match innermost(st.frames, k) {
                None => {
                    lemma_wf_cut(st);
                },
                Some(j) => {
                    lemma_innermost_bound(st.frames, k);
                    lemma_unwind_len(st, j + 1);
                    lemma_wf_unwind(st, j + 1);
                    let u = unwind_to(st, j + 1);
                    let f = u.frames.last();
                    assert(wf_level(f.items));
                    lemma_strip_wf(f.items);
                    let rest = MatchView { frames: u.frames.drop_last(), ..u };
                    assert(wf_state(rest));
                    lemma_wf_push_node(rest, closed_group(f, tok.location));
                },
            }
        },
    }
}

proof fn lemma_wf_run(tokens: Seq<WithSpan<IsographLangTokenKind>>, n: nat)
    ensures
        wf_state(run(tokens, n)),
    decreases n,
{
    if n > 0 && n <= tokens.len() {
        lemma_wf_run(tokens, (n - 1) as nat);
        lemma_wf_step(run(tokens, (n - 1) as nat), tokens[n - 1]);
    }
}

/// Every group the matcher builds pairs an opening and a closing of one kind, its interior runs
/// between them and its span over both, and no level, the root included, starts with a line
/// break: the opening (or the literal's start) captures those.
pub proof fn law_matched_tree_well_formed(tokens: Seq<WithSpan<IsographLangTokenKind>>)
    ensures
        wf_level(spec_root(tokens)),
        leading_line_breaks(spec_root(tokens)) == 0,
{
    lemma_wf_run(tokens, tokens.len());
    lemma_wf_unwind(run(tokens, tokens.len()), 0);
    lemma_strip_wf(unwind_to(run(tokens, tokens.len()), 0).root);
}

/// The open brackets still waiting for their close after reading a token, or `None` once a
/// closing bracket did not close the innermost one.
pub open spec fn bracket_stack_step(
    stack: Option<Seq<BracketKind>>,
    kind: IsographLangTokenKind,
) -> Option<Seq<BracketKind>> {
    match stack {
        None => None,
        Some(stk) => match spec_split(kind) {
            SplitToken::NonBracket(_) => Some(stk),
            SplitToken::Bracket(BracketToken::Open(k)) => Some(stk.push(k)),
            SplitToken::Bracket(BracketToken::Close(k)) => if stk.len() > 0 && stk.last() == k {
                Some(stk.drop_last())
            } else {
                None
            },
        },
    }
}

/// The open brackets after the first `n` tokens.
pub open spec fn bracket_stack(tokens: Seq<WithSpan<IsographLangTokenKind>>, n: nat) -> Option<
    Seq<BracketKind>,
>
    decreases n,
{
    if n == 0 || n > tokens.len() {
        Some(seq![])
    } else {
        bracket_stack_step(bracket_stack(tokens, (n - 1) as nat), tokens[n - 1].item)
    }
}

/// Whether the brackets of a token list are balanced: each closing bracket closes the innermost
/// open bracket, which is of its kind, and none is left open at the end.
pub open spec fn balanced(tokens: Seq<WithSpan<IsographLangTokenKind>>) -> bool {
    bracket_stack(tokens, tokens.len()) == Some(Seq::<BracketKind>::empty())
}

proof fn lemma_insert_len(sorted: Seq<BracketError>, e: BracketError)
    ensures
        insert_by_start(sorted, e).len() == sorted.len() + 1,
        insert_by_start(sorted, e).to_multiset() == sorted.to_multiset().insert(e),
    decreases sorted.len(),
{
    broadcast use vstd::seq_lib::group_to_multiset_ensures;
    if sorted.len() > 0 && sorted.last().spec_start() > e.spec_start() {
        lemma_insert_len(sorted.drop_last(), e);
        assert(sorted.drop_last().push(sorted.last()) =~= sorted);
    }
}

proof fn lemma_insert_sorted(sorted: Seq<BracketError>, e: BracketError)
    requires
        forall|i: int, j: int|
            0 <= i < j < sorted.len() ==> (#[trigger] sorted[i]).spec_start() <= (
            #[trigger] sorted[j]).spec_start(),
    ensures
        forall|i: int, j: int|
            0 <= i < j < insert_by_start(sorted, e).len() ==> (#[trigger] insert_by_start(
                sorted,
                e,
            )[i]).spec_start() <= (#[trigger] insert_by_start(sorted, e)[j]).spec_start(),
        forall|i: int|
            0 <= i < insert_by_start(sorted, e).len() ==> (#[trigger] insert_by_start(sorted, e)[i])
                == e || sorted.contains(insert_by_start(sorted, e)[i]),
    decreases sorted.len(),
{
    lemma_insert_len(sorted, e);
    if sorted.len() > 0 && sorted.last().spec_start() > e.spec_start() {
        let t = sorted.drop_last();
        lemma_insert_sorted(t, e);
        lemma_insert_len(t, e);
        let r = insert_by_start(sorted, e);
        let rt = insert_by_start(t, e);
        assert forall|i: int| 0 <= i < rt.len() implies (#[trigger] rt[i]).spec_start()
            <= sorted.last().spec_start() by {
            if rt[i] != e {
                assert(t.contains(rt[i]));
                let k = choose|k: int| 0 <= k < t.len() && t[k] == rt[i];
                assert(sorted[k] == t[k]);
                assert(sorted[sorted.len() - 1] == sorted.last());
            }
        }
        assert forall|i: int| 0 <= i < r.len() implies (#[trigger] r[i]) == e || sorted.contains(
            r[i],
        ) by {
            if i < rt.len() {
                assert(r[i] == rt[i]);
                if rt[i] != e {
                    let k = choose|k: int| 0 <= k < t.len() && t[k] == rt[i];
                    assert(sorted[k] == t[k]);
                }
            } else {
                assert(r[i] == sorted[sorted.len() - 1]);
            }
        }
        assert forall|i: int, j: int| 0 <= i < j < r.len() implies (#[trigger] r[i]).spec_start()
            <= (#[trigger] r[j]).spec_start() by {
            if j < rt.len() {
                assert(r[i] == rt[i]);
                assert(r[j] == rt[j]);
            } else {
                assert(r[i] == rt[i]);
            }
        }
    } else if sorted.len() > 0 {
        let r = insert_by_start(sorted, e);
        assert forall|i: int| 0 <= i < r.len() implies (#[trigger] r[i]) == e || sorted.contains(
            r[i],
        ) by {
            if i < sorted.len() {
                assert(r[i] == sorted[i]);
            }
        }
        assert forall|i: int, j: int| 0 <= i < j < r.len() implies (#[trigger] r[i]).spec_start()
            <= (#[trigger] r[j]).spec_start() by {
            if j < sorted.len() {
                assert(r[i] == sorted[i]);
                assert(r[j] == sorted[j]);
            } else {
                assert(r[i] == sorted[i]);
                assert(sorted[sorted.len() - 1] == sorted.last());
            }
        }
    }
}

proof fn lemma_sort_properties(errors: Seq<BracketError>)
    ensures
        sort_by_start(errors).len() == errors.len(),
        sort_by_start(errors).to_multiset() == errors.to_multiset(),
        forall|i: int, j: int|
            0 <= i < j < sort_by_start(errors).len() ==> (#[trigger] sort_by_start(errors)[i]).spec_start()
                <= (#[trigger] sort_by_start(errors)[j]).spec_start(),
    decreases errors.len(),
{
    broadcast use vstd::seq_lib::group_to_multiset_ensures;
    if errors.len() > 0 {
        let t = errors.drop_last();
        lemma_sort_properties(t);
        lemma_insert_len(sort_by_start(t), errors.last());
        lemma_insert_sorted(sort_by_start(t), errors.last());
        assert(t.push(errors.last()) =~= errors);
    }
}

/// The matcher reports its errors in source order, and exactly the errors it found: the
/// reported list is ordered by start and holds the same errors, as many times each, as the
/// matcher's run produced.
pub proof fn law_errors_in_source_order(tokens: Seq<WithSpan<IsographLangTokenKind>>)
    ensures
        forall|i: int, j: int|
            0 <= i < j < spec_bracket_errors(tokens).len() ==> (#[trigger] spec_bracket_errors(
                tokens,
            )[i]).spec_start() <= (#[trigger] spec_bracket_errors(tokens)[j]).spec_start(),
        spec_bracket_errors(tokens).to_multiset() == unwind_to(
            run(tokens, tokens.len()),
            0,
        ).errors.to_multiset(),
{
    lemma_sort_properties(unwind_to(run(tokens, tokens.len()), 0).errors);
}

/// The kinds of the open groups, outermost first.
pub open spec fn frame_kinds(frames: Seq<FrameView>) -> Seq<BracketKind> {
    frames.map_values(|f: FrameView| f.kind)
}

proof fn lemma_errors_grow_cut(st: MatchView)
    ensures
        cut(st).errors == st.errors,
        cut(st).frames.len() == st.frames.len(),
{
}

proof fn lemma_errors_grow_unwind(st: MatchView, depth: nat)
    ensures
        unwind_to(st, depth).errors.len() >= st.errors.len(),
        st.frames.len() > depth ==> unwind_to(st, depth).errors.len() > st.errors.len(),
    decreases st.frames.len(),
{
    if st.frames.len() > depth {
        lemma_errors_grow_unwind(pop_unclosed(st), depth);
    }
}

proof fn lemma_errors_grow_step(st: MatchView, tok: WithSpan<IsographLangTokenKind>)
    ensures
        step(st, tok).errors.len() >= st.errors.len(),
{
    match spec_split(tok.item) {
        SplitToken::Bracket(BracketToken::Close(k)) => {
            match innermost(st.frames, k) {
                Some(j) => {
                    lemma_errors_grow_unwind(st, j + 1);
                },
                None => {},
            }
        },
        _ => {},
    }
}

/// While the brackets read so far are balanced, the matcher has reported nothing, every level
/// still emits, and its open groups are the open brackets; once they are not, it has reported
/// an error.
proof fn lemma_run_tracks_stack(tokens: Seq<WithSpan<IsographLangTokenKind>>, n: nat)
    requires
        n <= tokens.len(),
    ensures
        bracket_stack(tokens, n) matches Some(stk) ==> {
            &&& run(tokens, n).errors.len() == 0
            &&& frame_kinds(run(tokens, n).frames) == stk
            &&& run(tokens, n).root_emitting
            &&& forall|i: int| 0 <= i < run(tokens, n).frames.len() ==> (#[trigger] run(tokens, n).frames[i]).emitting
        },
        bracket_stack(tokens, n) is None ==> run(tokens, n).errors.len() > 0,
    decreases n,
{
    if n > 0 {
        let m = (n - 1) as nat;
        lemma_run_tracks_stack(tokens, m);
        let st = run(tokens, m);
        let tok = tokens[m as int];
        lemma_errors_grow_step(st, tok);
        match bracket_stack(tokens, m) {
            None => {},
            Some(stk) => {
                match spec_split(tok.item) {
                    SplitToken::NonBracket(k) => {
                        let r = step(st, tok);
                        assert(frame_kinds(r.frames) =~= stk);
                    },
                    SplitToken::Bracket(BracketToken::Open(k)) => {
                        let r = step(st, tok);
                        assert(frame_kinds(r.frames) =~= stk.push(k));
                    },
                    SplitToken::Bracket(BracketToken::Close(k)) => {
                        lemma_innermost_bound(st.frames, k);
                        if stk.len() > 0 && stk.last() == k {
                            assert(st.frames.last().kind == k);
                            assert(innermost(st.frames, k) == Some((st.frames.len() - 1) as nat));
                            lemma_unwind_len(st, st.frames.len());
                            let r = step(st, tok);
                            assert(frame_kinds(r.frames) =~= stk.drop_last());
                        } else {
                            match innermost(st.frames, k) {
                                None => {},
                                Some(j) => {
                                    if stk.len() > 0 {
                                        assert(frame_kinds(st.frames)[st.frames.len() - 1] == stk.last());
                                    }
                                    assert(j + 1 < st.frames.len());
                                    lemma_errors_grow_unwind(st, j + 1);
                                },
                            }
                        }
                    },
                }
            },
        }
    }
}

/// The matcher reports no error exactly when the literal's brackets are balanced.
pub proof fn law_no_errors_iff_balanced(tokens: Seq<WithSpan<IsographLangTokenKind>>)
    ensures
        spec_bracket_errors(tokens).len() == 0 <==> balanced(tokens),
{
    let st = run(tokens, tokens.len());
    lemma_run_tracks_stack(tokens, tokens.len());
    lemma_sort_properties(unwind_to(st, 0).errors);
    lemma_errors_grow_unwind(st, 0);
    match bracket_stack(tokens, tokens.len()) {
        Some(stk) => {
            assert(frame_kinds(st.frames).len() == st.frames.len());
            if stk.len() == 0 {
                assert(stk =~= Seq::<BracketKind>::empty());
                assert(st.frames.len() == 0);
                assert(unwind_to(st, 0) == st);
            } else {
                assert(st.frames.len() > 0);
                assert(stk != Seq::<BracketKind>::empty());
            }
        },
        None => {},
    }
}

} // verus!
