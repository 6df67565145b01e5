use vstd::prelude::*;

use crate::chunk::{
    boundary_end, chunk_content, chunk_contents, chunk_view_at, chunks_from, comma_count,
    content_end, lemma_boundary_end, lemma_content_end, lemma_skip_line_breaks, sep_of,
    separator_tokens, skip_line_breaks, ChunkNode, ChunkView, SeparatorToken,
};
use crate::matched_brackets::BracketNode;
use crate::span::WithSpan;

verus! {

/// The commas of an item of a bracket tree: itself, when it is one, and those of a group's
/// interior, all the way down.
pub open spec fn node_commas(n: BracketNode) -> int
    decreases n, 0int,
{
    match n {
        BracketNode::Raw { .. } => if sep_of(n) == Some(SeparatorToken::Comma) {
            1
        } else {
            0
        },
        BracketNode::Group { children, .. } => items_commas(children, 0),
    }
}

/// The commas of `items[pos..]`, all the way down.
pub open spec fn items_commas(items: Seq<BracketNode>, pos: int) -> int
    decreases items, items.len() - pos,
{
    if 0 <= pos < items.len() {
        node_commas(items[pos]) + items_commas(items, pos + 1)
    } else {
        0
    }
}

/// The commas the separators of a content item's interior chunks hold, all the way down.
pub open spec fn cnode_commas(n: ChunkNode) -> int
    decreases n, 0int,
{
    match n {
        ChunkNode::Token { .. } => 0,
        ChunkNode::Group { children, .. } => chunks_commas(children, 0),
    }
}

/// The commas of content items from the `k`-th on.
pub open spec fn nodes_commas(ns: Seq<ChunkNode>, k: int) -> int
    decreases ns, ns.len() - k,
{
    if 0 <= k < ns.len() {
        cnode_commas(ns[k]) + nodes_commas(ns, k + 1)
    } else {
        0
    }
}

/// The commas the separators of chunks from the `j`-th on hold, all the way down.
pub open spec fn chunks_commas(cs: Seq<ChunkView>, j: int) -> int
    decreases cs, cs.len() - j,
{
    if 0 <= j < cs.len() {
        (match cs[j].separator {
            Some(s) => comma_count(s.tokens) as int,
            None => 0,
        }) + nodes_commas(cs[j].contents, 0) + chunks_commas(cs, j + 1)
    } else {
        0
    }
}

proof fn lemma_nodes_commas_cons(x: ChunkNode, r: Seq<ChunkNode>, k: int)
    requires
        k >= 1,
    ensures
        nodes_commas(seq![x] + r, k) == nodes_commas(r, k - 1),
    decreases r.len() + 1 - k,
{
    let s = seq![x] + r;
    if k < s.len() {
        assert(s[k] == r[k - 1]);
        lemma_nodes_commas_cons(x, r, k + 1);
    }
}

proof fn lemma_chunks_commas_cons(x: ChunkView, r: Seq<ChunkView>, j: int)
    requires
        j >= 1,
    ensures
        chunks_commas(seq![x] + r, j) == chunks_commas(r, j - 1),
    decreases r.len() + 1 - j,
{
    let s = seq![x] + r;
    if j < s.len() {
        assert(s[j] == r[j - 1]);
        lemma_chunks_commas_cons(x, r, j + 1);
    }
}

proof fn lemma_comma_count_cons(x: WithSpan<SeparatorToken>, s: Seq<WithSpan<SeparatorToken>>)
    ensures
        comma_count(seq![x] + s) == (if x.item == SeparatorToken::Comma { 1nat } else { 0nat }) + comma_count(s),
    decreases s.len(),
{
    let t = seq![x] + s;
    if s.len() > 0 {
        assert(t.drop_last() =~= seq![x] + s.drop_last());
        assert(t.last() == s.last());
        lemma_comma_count_cons(x, s.drop_last());
        assert(comma_count(t) == (if t.last().item == SeparatorToken::Comma { 1nat } else { 0nat }) + comma_count(t.drop_last()));
        assert(comma_count(s) == (if s.last().item == SeparatorToken::Comma { 1nat } else { 0nat }) + comma_count(s.drop_last()));
    } else {
        assert(t.drop_last() =~= Seq::<WithSpan<SeparatorToken>>::empty());
        assert(t.last() == x);
        assert(comma_count(t) == (if t.last().item == SeparatorToken::Comma { 1nat } else { 0nat }) + comma_count(t.drop_last()));
        assert(comma_count(t.drop_last()) == 0);
    }
}

/// Line breaks hold no comma.
proof fn lemma_skip_keeps_commas(items: Seq<BracketNode>, pos: int)
    requires
        0 <= pos,
    ensures
        items_commas(items, pos) == items_commas(items, skip_line_breaks(items, pos)),
    decreases items.len() - pos,
{
    if 0 <= pos < items.len() && crate::matched_brackets::is_line_break(items[pos]) {
        lemma_skip_keeps_commas(items, pos + 1);
        assert(sep_of(items[pos]) == Some(SeparatorToken::LineBreak));
        assert(node_commas(items[pos]) == 0);
        assert(items_commas(items, pos) == node_commas(items[pos]) + items_commas(items, pos + 1));
        assert(skip_line_breaks(items, pos) == skip_line_breaks(items, pos + 1));
    }
}

/// A boundary's commas are those its separator tokens hold.
proof fn lemma_boundary_commas(items: Seq<BracketNode>, e: int, b: int)
    requires
        0 <= e <= b <= items.len(),
        forall|k: int| e <= k < b ==> (#[trigger] sep_of(items[k])) is Some,
    ensures
        items_commas(items, e) == comma_count(separator_tokens(items, e, b)) + items_commas(items, b),
    decreases b - e,
{
    if e < b {
        lemma_boundary_commas(items, e + 1, b);
        let t = separator_tokens(items, e, b);
        assert(t =~= seq![t[0]] + separator_tokens(items, e + 1, b));
        lemma_comma_count_cons(t[0], separator_tokens(items, e + 1, b));
        assert(sep_of(items[e]) is Some);
        assert(items[e] is Raw);
        assert(t[0].item == sep_of(items[e])->Some_0);
        assert(node_commas(items[e]) == (if t[0].item == SeparatorToken::Comma { 1int } else { 0int }));
        assert(items_commas(items, e) == node_commas(items[e]) + items_commas(items, e + 1));
    } else {
        assert(separator_tokens(items, e, b) =~= Seq::<WithSpan<SeparatorToken>>::empty());
    }
}

/// The commas of a run of non-separator items are those of the content items it becomes plus
/// the chunking errors of their interiors.
proof fn lemma_contents_commas(items: Seq<BracketNode>, p: int, e: int)
    requires
        0 <= p <= e <= items.len(),
        forall|k: int| p <= k < e ==> (#[trigger] sep_of(items[k])) is None,
    ensures
        items_commas(items, p) == nodes_commas(chunk_contents(items, p, e).0, 0) + chunk_contents(items, p, e).1.len()
            + items_commas(items, e),
    decreases items, e - p, 0int,
{
    if p < e {
        let c = chunk_content(items[p]);
        let r = chunk_contents(items, p + 1, e);
        lemma_contents_commas(items, p + 1, e);
        lemma_node_commas(items[p]);
        lemma_nodes_commas_cons(c.0, r.0, 1);
        assert(sep_of(items[p]) is None);
    }
}

/// The commas of a non-separator item are those its content item holds plus the chunking errors
/// of its interior.
proof fn lemma_node_commas(n: BracketNode)
    requires
        sep_of(n) is None,
    ensures
        node_commas(n) == cnode_commas(chunk_content(n).0) + chunk_content(n).1.len(),
    decreases n, 1int, 0int,
{
    match n {
        BracketNode::Raw { .. } => {},
        BracketNode::Group { children, .. } => {
            law_every_comma_is_accounted_for(children, 0);
        },
    }
}

/// Each comma of a level, its groups' interiors included, lands in exactly one separator of a
/// chunk or is exactly one `CommaWithoutItem` error: the commas of `items[pos..]` number as many
/// as the commas the separators of the chunks built from them hold, all the way down, plus the
/// chunking errors.
pub proof fn law_every_comma_is_accounted_for(items: Seq<BracketNode>, pos: int)
    requires
        pos >= 0,
    ensures
        items_commas(items, pos) == chunks_commas(chunks_from(items, pos).0, 0) + chunks_from(items, pos).1.len(),
    decreases items, items.len() - pos, 2int,
{
    let p = skip_line_breaks(items, pos);
    lemma_skip_line_breaks(items, pos);
    lemma_skip_keeps_commas(items, pos);
    if p >= items.len() {
    } else if sep_of(items[p]) == Some(SeparatorToken::Comma) {
        let q = skip_line_breaks(items, p + 1);
        lemma_skip_line_breaks(items, p + 1);
        lemma_skip_keeps_commas(items, p + 1);
        law_every_comma_is_accounted_for(items, q);
        assert(items_commas(items, p) == node_commas(items[p]) + items_commas(items, p + 1));
        assert(node_commas(items[p]) == 1);
    } else {
        let e = content_end(items, p + 1);
        lemma_content_end(items, p + 1);
        let b = boundary_end(items, e, false);
        lemma_boundary_end(items, e, false);
        lemma_skip_ends_at_non_line_break(items, pos);
        assert forall|k: int| p <= k < e implies (#[trigger] sep_of(items[k])) is None by {
            if k > p {
                lemma_content_range(items, p + 1, k);
            }
        }
        assert forall|k: int| e <= k < b implies (#[trigger] sep_of(items[k])) is Some by {
            lemma_boundary_range(items, e, false, k);
        }
        lemma_contents_commas(items, p, e);
        lemma_boundary_commas(items, e, b);
        law_every_comma_is_accounted_for(items, b);
        let c = chunk_contents(items, p, e);
        let chunk = chunk_view_at(items, p, e, b, c.0);
        let r = chunks_from(items, b);
        lemma_chunks_commas_cons(chunk, r.0, 1);
        assert(chunks_from(items, pos) == (seq![chunk] + r.0, c.1 + r.1));
        assert((seq![chunk] + r.0)[0] == chunk);
        if b > e {
            assert(chunk.separator == Some(crate::chunk::SeparatorView {
                tokens: separator_tokens(items, e, b),
                location: crate::span::Span::spec_join(crate::chunk::node_location(items[e]), crate::chunk::node_location(items[b - 1])),
            }));
        } else {
            assert(separator_tokens(items, e, b) =~= Seq::<WithSpan<SeparatorToken>>::empty());
        }
    }
}

proof fn lemma_skip_ends_at_non_line_break(items: Seq<BracketNode>, pos: int)
    requires
        0 <= pos,
    ensures
        skip_line_breaks(items, pos) < items.len() ==> !crate::matched_brackets::is_line_break(
            items[skip_line_breaks(items, pos)],
        ),
    decreases items.len() - pos,
{
    if 0 <= pos < items.len() && crate::matched_brackets::is_line_break(items[pos]) {
        lemma_skip_ends_at_non_line_break(items, pos + 1);
    }
}

proof fn lemma_content_range(items: Seq<BracketNode>, a: int, k: int)
    requires
        a <= k < content_end(items, a),
    ensures
        sep_of(items[k]) is None,
    decreases items.len() - a,
{
    if a < k {
        lemma_content_range(items, a + 1, k);
    }
}

proof fn lemma_boundary_range(items: Seq<BracketNode>, a: int, seen: bool, k: int)
    requires
        a <= k < boundary_end(items, a, seen),
    ensures
        sep_of(items[k]) is Some,
    decreases items.len() - a,
{
    if a < k {
        if sep_of(items[a]) == Some(SeparatorToken::Comma) {
            lemma_boundary_range(items, a + 1, true, k);
        } else {
            lemma_boundary_range(items, a + 1, seen, k);
        }
    }
}

} // verus!
