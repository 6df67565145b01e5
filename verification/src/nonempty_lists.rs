use vstd::prelude::*;

use nonempty::NonEmpty;

use crate::chunk::{Chunk, ChunkContentItem, SeparatorToken};
use crate::span::WithSpan;

verus! {

/// The list of the `nonempty` crate: a first element and a `Vec` of the others. Verus sees
/// nothing inside a value of it; what one holds is named below, one name per element type.
#[verifier::external_type_specification]
#[verifier::external_body]
#[verifier::reject_recursive_types(T)]
pub struct ExNonEmpty<T>(NonEmpty<T>);

/// The tokens a boundary's list holds, first to last.
pub uninterp spec fn separator_tokens_held(l: NonEmpty<WithSpan<SeparatorToken>>) -> Seq<WithSpan<SeparatorToken>>;

/// The chunks a list of root chunks holds, first to last.
pub uninterp spec fn chunks_held(l: NonEmpty<WithSpan<Chunk>>) -> Seq<WithSpan<Chunk>>;

/// The content items a list of unread items holds, first to last.
pub uninterp spec fn content_items_held(l: NonEmpty<WithSpan<ChunkContentItem>>) -> Seq<WithSpan<ChunkContentItem>>;

/// `NonEmpty::new`, which builds the list of its one argument.
#[verifier::external_body]
pub(crate) fn new_separator_tokens(head: WithSpan<SeparatorToken>) -> (r: NonEmpty<WithSpan<SeparatorToken>>)
    ensures
        separator_tokens_held(r) == seq![head],
{
    NonEmpty::new(head)
}

/// `NonEmpty::push`, which adds its argument after the last element.
#[verifier::external_body]
pub(crate) fn push_separator_token(l: &mut NonEmpty<WithSpan<SeparatorToken>>, token: WithSpan<SeparatorToken>)
    ensures
        separator_tokens_held(*final(l)) == separator_tokens_held(*old(l)).push(token),
{
    l.push(token)
}

/// `NonEmpty::len`, the number of elements, at least one: the tail `Vec`'s length plus one. A
/// `Vec` of these elements, which take room, never holds more than `isize::MAX` of them, so
/// the sum does not overflow.
#[verifier::external_body]
pub(crate) fn separator_token_count(l: &NonEmpty<WithSpan<SeparatorToken>>) -> (n: usize)
    ensures
        n == separator_tokens_held(*l).len(),
        n >= 1,
{
    l.len()
}

/// Indexing a `NonEmpty`, which gives the element at `index`; it panics past the last, which
/// `requires` rules out.
#[verifier::external_body]
pub(crate) fn separator_token_at(l: &NonEmpty<WithSpan<SeparatorToken>>, index: usize) -> (r:
    &WithSpan<SeparatorToken>)
    requires
        index < separator_tokens_held(*l).len(),
    ensures
        *r == separator_tokens_held(*l)[index as int],
{
    &l[index]
}

/// `NonEmpty::new`, which builds the list of its one argument.
#[verifier::external_body]
pub(crate) fn new_chunks(head: WithSpan<Chunk>) -> (r: NonEmpty<WithSpan<Chunk>>)
    ensures
        chunks_held(r) == seq![head],
{
    NonEmpty::new(head)
}

/// `NonEmpty::push`, which adds its argument after the last element.
#[verifier::external_body]
pub(crate) fn push_chunk(l: &mut NonEmpty<WithSpan<Chunk>>, chunk: WithSpan<Chunk>)
    ensures
        chunks_held(*final(l)) == chunks_held(*old(l)).push(chunk),
{
    l.push(chunk)
}

/// `NonEmpty::new`, which builds the list of its one argument.
#[verifier::external_body]
pub(crate) fn new_content_items(head: WithSpan<ChunkContentItem>) -> (r: NonEmpty<WithSpan<ChunkContentItem>>)
    ensures
        content_items_held(r) == seq![head],
{
    NonEmpty::new(head)
}

/// `NonEmpty::push`, which adds its argument after the last element.
#[verifier::external_body]
pub(crate) fn push_content_item(l: &mut NonEmpty<WithSpan<ChunkContentItem>>, item: WithSpan<ChunkContentItem>)
    ensures
        content_items_held(*final(l)) == content_items_held(*old(l)).push(item),
{
    l.push(item)
}

} // verus!
