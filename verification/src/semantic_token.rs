use vstd::prelude::*;

use crate::non_bracket_token::{NonBracketTokenKind, SplitToken};

verus! {

/// The role a token plays in a literal, as an editor colours it.
#[derive(Copy, Clone, Debug, Eq, PartialEq, Hash, Structural)]
pub enum IsographSemanticToken {
    Keyword,
    Type,
    FieldName,
    ObjectKey,
    GraphQLTypeName,
    DirectiveName,
    Variable,
    Argument,
    Integer,
    String,
    BooleanOrNull,
    Period,
    Colon,
    Equals,
    Parenthesis,
    Brace,
    Content,
    Bracket,
    Error,
}

/// The role of a token the grammar did not read: numbers and strings keep their kind, an error
/// token stays an error, line breaks and the end of the file get no role, brackets are
/// brackets, and everything else is plain content.
pub open spec fn spec_leftover_token(kind: SplitToken) -> Option<IsographSemanticToken> {
    match kind {
        SplitToken::NonBracket(NonBracketTokenKind::IntegerLiteral) => Some(
            IsographSemanticToken::Integer,
        ),
        SplitToken::NonBracket(NonBracketTokenKind::StringLiteral) => Some(
            IsographSemanticToken::String,
        ),
        SplitToken::NonBracket(NonBracketTokenKind::BlockStringLiteral) => Some(
            IsographSemanticToken::String,
        ),
        SplitToken::NonBracket(NonBracketTokenKind::Error) => Some(IsographSemanticToken::Error),
        SplitToken::NonBracket(NonBracketTokenKind::LineBreak) => None,
        SplitToken::NonBracket(NonBracketTokenKind::EndOfFile) => None,
        SplitToken::NonBracket(_) => Some(IsographSemanticToken::Content),
        SplitToken::Bracket(_) => Some(IsographSemanticToken::Bracket),
    }
}

/// The role of a token the grammar did not read.
pub fn leftover_token(kind: SplitToken) -> (t: Option<IsographSemanticToken>)
    ensures
        t == spec_leftover_token(kind),
{
    match kind {
        SplitToken::NonBracket(NonBracketTokenKind::IntegerLiteral) => Some(
            IsographSemanticToken::Integer,
        ),
        SplitToken::NonBracket(NonBracketTokenKind::StringLiteral)
        | SplitToken::NonBracket(NonBracketTokenKind::BlockStringLiteral) => Some(
            IsographSemanticToken::String,
        ),
        SplitToken::NonBracket(NonBracketTokenKind::Error) => Some(IsographSemanticToken::Error),
        SplitToken::NonBracket(NonBracketTokenKind::LineBreak)
        | SplitToken::NonBracket(NonBracketTokenKind::EndOfFile) => None,
        SplitToken::NonBracket(_) => Some(IsographSemanticToken::Content),
        SplitToken::Bracket(_) => Some(IsographSemanticToken::Bracket),
    }
}

} // verus!
