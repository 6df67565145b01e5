use vstd::prelude::*;

use crate::chunk::{
    chunk_content, chunk_contents, chunks_from, content_end, boundary_end, lemma_boundary_end,
    lemma_content_end, lemma_skip_line_breaks, sep_of, skip_line_breaks, ChunkNode, ChunkView,
    SeparatorToken
};
use crate::matched_brackets::{
    close_top, closed_group, cut, innermost, leading_line_breaks, pop_unclosed, push_node, run,
    spec_root, step, strip_line_breaks, unwind_to, BracketNode, MatchView
};
use crate::non_bracket_token::{spec_split, BracketToken, SplitToken};
use crate::slot::{chunks_in_text, chunks_in_text_from, node_in_text, nodes_in_text, nodes_in_text_from, token_fits};
use crate::span::WithSpan;
use crate::token_kind::IsographLangTokenKind;

verus! {

/// Whether every token a lexer gave fits the text: each token that is no bracket is a range of
/// whole characters of it, a string with its quotes.
pub open spec fn tokens_fit(text: &str, tokens: Seq<WithSpan<IsographLangTokenKind>>) -> bool {
    forall|i: int|
        0 <= i < tokens.len() ==> match #[trigger] spec_split(tokens[i].item) {
            SplitToken::NonBracket(kind) => token_fits(text, kind, tokens[i].location),
            SplitToken::Bracket(_) => true,
        }
}

/// Whether every token under a bracket-tree item fits the text.
pub open spec fn bnode_fits(text: &str, n: BracketNode) -> bool
    decreases n, 0int,
{
    match n {
        BracketNode::Raw { kind, location } => token_fits(text, kind, location),
        BracketNode::Group { children, .. } => bnodes_fit_from(text, children, 0),
    }
}

/// Whether every token under bracket-tree items, from the `i`-th on, fits the text.
pub open spec fn bnodes_fit_from(text: &str, ns: Seq<BracketNode>, i: int) -> bool
    decreases ns, ns.len() - i,
{
    if 0 <= i < ns.len() {
        bnode_fits(text, ns[i]) && bnodes_fit_from(text, ns, i + 1)
    } else {
        true
    }
}

/// Whether every item of a level fits the text, item by item.
pub open spec fn bnodes_fit(text: &str, ns: Seq<BracketNode>) -> bool {
    forall|i: int| 0 <= i < ns.len() ==> #[trigger] bnode_fits(text, ns[i])
}

proof fn lemma_bnodes_fit_from(text: &str, ns: Seq<BracketNode>, k: int)
    requires
        0 <= k <= ns.len(),
    ensures
        bnodes_fit_from(text, ns, k) <==> (forall|i: int| k <= i < ns.len() ==> #[trigger] bnode_fits(text, ns[i])),
    decreases ns.len() - k,
{
    if k < ns.len() {
        lemma_bnodes_fit_from(text, ns, k + 1);
        if bnodes_fit_from(text, ns, k) {
            assert forall|i: int| k <= i < ns.len() implies #[trigger] bnode_fits(text, ns[i]) by {
                if i > k {
                    assert(bnodes_fit_from(text, ns, k + 1));
                }
            }
        }
        if forall|i: int| k <= i < ns.len() ==> #[trigger] bnode_fits(text, ns[i]) {
            assert(bnode_fits(text, ns[k]));
            assert(bnodes_fit_from(text, ns, k + 1));
        }
    }
}

proof fn lemma_nodes_in_text_from(text: &str, ns: Seq<ChunkNode>, k: int)
    requires
        0 <= k <= ns.len(),
    ensures
        nodes_in_text_from(text, ns, k) <==> (forall|i: int| k <= i < ns.len() ==> #[trigger] node_in_text(text, ns[i])),
    decreases ns.len() - k,
{
    if k < ns.len() {
        lemma_nodes_in_text_from(text, ns, k + 1);
        if nodes_in_text_from(text, ns, k) {
            assert forall|i: int| k <= i < ns.len() implies #[trigger] node_in_text(text, ns[i]) by {
                if i > k {
                    assert(nodes_in_text_from(text, ns, k + 1));
                }
            }
        }
        if forall|i: int| k <= i < ns.len() ==> #[trigger] node_in_text(text, ns[i]) {
            assert(node_in_text(text, ns[k]));
            assert(nodes_in_text_from(text, ns, k + 1));
        }
    }
}

proof fn lemma_chunks_in_text_from(text: &str, cs: Seq<ChunkView>, k: int)
    requires
        0 <= k <= cs.len(),
    ensures
        chunks_in_text_from(text, cs, k) <==> (forall|j: int| k <= j < cs.len() ==> nodes_in_text(text, #[trigger] cs[j].contents)),
    decreases cs.len() - k,
{
    if k < cs.len() {
        lemma_chunks_in_text_from(text, cs, k + 1);
        if chunks_in_text_from(text, cs, k) {
            assert forall|j: int| k <= j < cs.len() implies nodes_in_text(text, #[trigger] cs[j].contents) by {
                if j > k {
                    assert(chunks_in_text_from(text, cs, k + 1));
                }
            }
        }
        if forall|j: int| k <= j < cs.len() ==> nodes_in_text(text, #[trigger] cs[j].contents) {
            assert(nodes_in_text(text, cs[k].contents));
            assert(chunks_in_text_from(text, cs, k + 1));
        }
    }
}

/// Whether every level of the matcher's state fits the text.
pub open spec fn state_fits(text: &str, st: MatchView) -> bool {
    &&& bnodes_fit(text, st.root)
    &&& forall|k: int| 0 <= k < st.frames.len() ==> bnodes_fit(text, #[trigger] st.frames[k].items)
}

proof fn lemma_push_node(text: &str, st: MatchView, n: BracketNode)
    requires
        state_fits(text, st),
        bnode_fits(text, n),
    ensures
        state_fits(text, push_node(st, n)),
{
    let r = push_node(st, n);
    if st.frames.len() > 0 {
        let last = st.frames.len() - 1;
        assert forall|k: int| 0 <= k < r.frames.len() implies bnodes_fit(text, #[trigger] r.frames[k].items) by {
            if k != last {
                assert(r.frames[k] == st.frames[k]);
            }
        }
    }
}

proof fn lemma_cut(text: &str, st: MatchView)
    requires
        state_fits(text, st),
    ensures
        state_fits(text, cut(st)),
{
    let r = cut(st);
    if st.frames.len() > 0 {
        assert forall|k: int| 0 <= k < r.frames.len() implies bnodes_fit(text, #[trigger] r.frames[k].items) by {
            assert(r.frames[k].items == st.frames[k].items);
        }
    }
}

proof fn lemma_pop_unclosed(text: &str, st: MatchView)
    requires
        state_fits(text, st),
        st.frames.len() > 0,
    ensures
        state_fits(text, pop_unclosed(st)),
{
    let f = st.frames.last();
    let m = MatchView {
        frames: st.frames.drop_last(),
        errors: st.errors.push(
            crate::matched_brackets::BracketError::UnmatchedOpen(
                WithSpan { item: crate::matched_brackets::OpenBracket(f.kind), location: f.opening },
            ),
        ),
        ..st
    };
    assert forall|k: int| 0 <= k < m.frames.len() implies bnodes_fit(text, #[trigger] m.frames[k].items) by {
        assert(m.frames[k] == st.frames[k]);
    }
    lemma_cut(text, m);
}

proof fn lemma_unwind_to(text: &str, st: MatchView, depth: nat)
    requires
        state_fits(text, st),
    ensures
        state_fits(text, unwind_to(st, depth)),
    decreases st.frames.len(),
{
    if st.frames.len() > depth {
        lemma_pop_unclosed(text, st);
        lemma_unwind_to(text, pop_unclosed(st), depth);
    }
}

proof fn lemma_strip_line_breaks(text: &str, ns: Seq<BracketNode>)
    requires
        bnodes_fit(text, ns),
    ensures
        bnodes_fit(text, strip_line_breaks(ns)),
{
    crate::matched_brackets::lemma_leading_line_breaks_bound(ns);
    let s = strip_line_breaks(ns);
    let k = leading_line_breaks(ns) as int;
    assert forall|i: int| 0 <= i < s.len() implies #[trigger] bnode_fits(text, s[i]) by {
        assert(s[i] == ns[i + k]);
    }
}

proof fn lemma_close_top(text: &str, st: MatchView, closing: crate::span::Span)
    requires
        state_fits(text, st),
        st.frames.len() > 0,
    ensures
        state_fits(text, close_top(st, closing)),
{
    let f = st.frames.last();
    let m = MatchView { frames: st.frames.drop_last(), ..st };
    assert forall|k: int| 0 <= k < m.frames.len() implies bnodes_fit(text, #[trigger] m.frames[k].items) by {
        assert(m.frames[k] == st.frames[k]);
    }
    assert(bnodes_fit(text, st.frames[st.frames.len() - 1].items));
    lemma_strip_line_breaks(text, f.items);
    let g = closed_group(f, closing);
    lemma_bnodes_fit_from(text, strip_line_breaks(f.items), 0);
    assert(bnode_fits(text, g));
    lemma_push_node(text, m, g);
}

proof fn lemma_step(text: &str, st: MatchView, tok: WithSpan<IsographLangTokenKind>)
    requires
        state_fits(text, st),
        match spec_split(tok.item) {
            SplitToken::NonBracket(kind) => token_fits(text, kind, tok.location),
            SplitToken::Bracket(_) => true,
        },
    ensures
        state_fits(text, step(st, tok)),
{
    match spec_split(tok.item) {
        SplitToken::NonBracket(k) => {
            lemma_push_node(text, st, BracketNode::Raw { kind: k, location: tok.location });
        },
        SplitToken::Bracket(BracketToken::Open(k)) => {
            let r = step(st, tok);
            assert forall|j: int| 0 <= j < r.frames.len() implies bnodes_fit(text, #[trigger] r.frames[j].items) by {
                if j < st.frames.len() {
                    assert(r.frames[j] == st.frames[j]);
                } else {
                    assert(r.frames[j].items.len() == 0);
                }
            }
        },
        SplitToken::Bracket(BracketToken::Close(k)) => {
            match innermost(st.frames, k) {
                None => {
                    lemma_cut(text, st);
                },
                Some(j) => {
                    crate::matched_brackets::lemma_innermost_bound(st.frames, k);
                    lemma_unwind_to(text, st, j + 1);
                    crate::matched_brackets::lemma_unwind_len(st, j + 1);
                    lemma_close_top(text, unwind_to(st, j + 1), tok.location);
                },
            }
        },
    }
}

proof fn lemma_run(text: &str, tokens: Seq<WithSpan<IsographLangTokenKind>>, n: nat)
    requires
        tokens_fit(text, tokens),
    ensures
        state_fits(text, run(tokens, n)),
    decreases n,
{
    if n == 0 || n > tokens.len() {
    } else {
        lemma_run(text, tokens, (n - 1) as nat);
        assert(match spec_split(tokens[n - 1].item) {
            SplitToken::NonBracket(kind) => token_fits(text, kind, tokens[n - 1].location),
            SplitToken::Bracket(_) => true,
        });
        lemma_step(text, run(tokens, (n - 1) as nat), tokens[n - 1]);
    }
}

/// Every token under the root level the matcher builds fits the text, when every token it was
/// given does.
pub proof fn lemma_root_fits(text: &str, tokens: Seq<WithSpan<IsographLangTokenKind>>)
    requires
        tokens_fit(text, tokens),
    ensures
        bnodes_fit(text, spec_root(tokens)),
{
    lemma_run(text, tokens, tokens.len());
    lemma_unwind_to(text, run(tokens, tokens.len()), 0);
    lemma_strip_line_breaks(text, unwind_to(run(tokens, tokens.len()), 0).root);
}

proof fn lemma_chunk_content(text: &str, n: BracketNode)
    requires
        bnode_fits(text, n),
    ensures
        node_in_text(text, chunk_content(n).0),
    decreases n, 0int, 0int,
{
    match n {
        BracketNode::Raw { .. } => {},
        BracketNode::Group { children, .. } => {
            lemma_bnodes_fit_from(text, children, 0);
            lemma_chunks_from(text, children, 0);
        },
    }
}

proof fn lemma_chunk_contents(text: &str, items: Seq<BracketNode>, pos: int, end: int)
    requires
        bnodes_fit(text, items),
    ensures
        nodes_in_text(text, chunk_contents(items, pos, end).0),
    decreases items, end - pos, 0int,
{
    let r = chunk_contents(items, pos, end);
    if pos < 0 || pos >= end || end > items.len() {
        lemma_nodes_in_text_from(text, r.0, 0);
    } else {
        lemma_chunk_content(text, items[pos]);
        lemma_chunk_contents(text, items, pos + 1, end);
        let c = chunk_content(items[pos]);
        let rest = chunk_contents(items, pos + 1, end);
        lemma_nodes_in_text_from(text, rest.0, 0);
        lemma_nodes_in_text_from(text, r.0, 0);
        assert forall|i: int| 0 <= i < r.0.len() implies #[trigger] node_in_text(text, r.0[i]) by {
            if i > 0 {
                assert(r.0[i] == rest.0[i - 1]);
            }
        }
    }
}

/// Every token of the chunks built from a level fits the text, when every token of the level
/// does.
pub proof fn lemma_chunks_from(text: &str, items: Seq<BracketNode>, pos: int)
    requires
        bnodes_fit(text, items),
    ensures
        chunks_in_text(text, chunks_from(items, pos).0),
    decreases items, items.len() - pos, 1int,
{
    let r = chunks_from(items, pos);
    if pos < 0 {
        lemma_chunks_in_text_from(text, r.0, 0);
    } else {
        let p = skip_line_breaks(items, pos);
        lemma_skip_line_breaks(items, pos);
        if p >= items.len() {
            lemma_chunks_in_text_from(text, r.0, 0);
        } else if sep_of(items[p]) == Some(SeparatorToken::Comma) {
            let q = skip_line_breaks(items, p + 1);
            lemma_skip_line_breaks(items, p + 1);
            lemma_chunks_from(text, items, q);
        } else {
            let e = content_end(items, p + 1);
            lemma_content_end(items, p + 1);
            let b = boundary_end(items, e, false);
            lemma_boundary_end(items, e, false);
            lemma_chunk_contents(text, items, p, e);
            lemma_chunks_from(text, items, b);
            let rest = chunks_from(items, b);
            lemma_chunks_in_text_from(text, rest.0, 0);
            lemma_chunks_in_text_from(text, r.0, 0);
            assert forall|j: int| 0 <= j < r.0.len() implies nodes_in_text(text, #[trigger] r.0[j].contents) by {
                if j > 0 {
                    assert(r.0[j] == rest.0[j - 1]);
                }
            }
        }
    }
}

/// Every token the grammar reads lies in the text as the lexer placed it: when every token
/// given to the matcher fits the text, so does every token of the chunk tree built from it.
pub proof fn law_chunk_tree_tokens_fit(text: &str, tokens: Seq<WithSpan<IsographLangTokenKind>>)
    requires
        tokens_fit(text, tokens),
    ensures
        chunks_in_text(text, chunks_from(spec_root(tokens), 0).0),
{
    lemma_root_fits(text, tokens);
    lemma_chunks_from(text, spec_root(tokens), 0);
}

} // verus!
