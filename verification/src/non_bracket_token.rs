use vstd::prelude::*;

use crate::token_kind::IsographLangTokenKind;

verus! {

/// `IsographLangTokenKind` with the six bracket tokens unrepresentable: what the runs between
/// brackets hold once the bracket matcher has consumed the brackets. It has one variant per
/// non-bracket token, under the tokenizer's names.
#[derive(Copy, Clone, Debug, Eq, PartialEq, Ord, PartialOrd, Hash, Structural)]
pub enum NonBracketTokenKind {
    Error,
    ErrorUnterminatedString,
    ErrorUnsupportedStringCharacter,
    ErrorUnterminatedBlockString,
    At,
    Colon,
    Dollar,
    EndOfFile,
    Equals,
    Exclamation,
    FloatLiteral,
    Identifier,
    IntegerLiteral,
    LineBreak,
    ErrorNumberLiteralLeadingZero,
    ErrorNumberLiteralTrailingInvalid,
    ErrorFloatLiteralMissingZero,
    Period,
    Comma,
    StringLiteral,
    BlockStringLiteral,
}

/// The bracket kinds: parenthesis `()`, brace `{}`, bracket `[]`.
#[derive(Copy, Clone, Debug, Eq, PartialEq, Ord, PartialOrd, Hash, Structural)]
pub enum BracketKind {
    Parenthesis,
    Brace,
    Bracket,
}

/// One of the six bracket tokens.
#[derive(Copy, Clone, Debug, Eq, PartialEq, Ord, PartialOrd, Hash, Structural)]
pub enum BracketToken {
    Open(BracketKind),
    Close(BracketKind),
}

/// Every token is a bracket or it is not. This enum is the one place that split is defined,
/// so the bracket matcher and the runs it produces cannot disagree about what counts as a
/// bracket.
#[derive(Copy, Clone, Debug, Eq, PartialEq, Ord, PartialOrd, Hash, Structural)]
pub enum SplitToken {
    Bracket(BracketToken),
    NonBracket(NonBracketTokenKind),
}

impl BracketKind {
    /// The opening character, quoted, as diagnostics print the kind.
    pub open spec fn spec_opening(self) -> Seq<char> {
        match self {
            BracketKind::Parenthesis => "'('"@,
            BracketKind::Brace => "'{'"@,
            BracketKind::Bracket => "'['"@,
        }
    }

    /// The closing character, quoted.
    pub open spec fn spec_closing(self) -> Seq<char> {
        match self {
            BracketKind::Parenthesis => "')'"@,
            BracketKind::Brace => "'}'"@,
            BracketKind::Bracket => "']'"@,
        }
    }

    /// The opening character, quoted, as diagnostics print the kind.
    pub fn opening(self) -> (s: &'static str)
        ensures
            s@ == self.spec_opening(),
    {
        match self {
            BracketKind::Parenthesis => "'('",
            BracketKind::Brace => "'{'",
            BracketKind::Bracket => "'['",
        }
    }

    /// The closing character, quoted.
    pub fn closing(self) -> (s: &'static str)
        ensures
            s@ == self.spec_closing(),
    {
        match self {
            BracketKind::Parenthesis => "')'",
            BracketKind::Brace => "'}'",
            BracketKind::Bracket => "']'",
        }
    }
}

/// The split of a token kind into bracket and non-bracket.
pub open spec fn spec_split(kind: IsographLangTokenKind) -> SplitToken {
    match kind {
        IsographLangTokenKind::OpenParenthesis => SplitToken::Bracket(BracketToken::Open(BracketKind::Parenthesis)),
        IsographLangTokenKind::CloseParenthesis => SplitToken::Bracket(BracketToken::Close(BracketKind::Parenthesis)),
        IsographLangTokenKind::OpenBrace => SplitToken::Bracket(BracketToken::Open(BracketKind::Brace)),
        IsographLangTokenKind::CloseBrace => SplitToken::Bracket(BracketToken::Close(BracketKind::Brace)),
        IsographLangTokenKind::OpenBracket => SplitToken::Bracket(BracketToken::Open(BracketKind::Bracket)),
        IsographLangTokenKind::CloseBracket => SplitToken::Bracket(BracketToken::Close(BracketKind::Bracket)),
        IsographLangTokenKind::Error => SplitToken::NonBracket(NonBracketTokenKind::Error),
        IsographLangTokenKind::ErrorUnterminatedString => SplitToken::NonBracket(NonBracketTokenKind::ErrorUnterminatedString),
        IsographLangTokenKind::ErrorUnsupportedStringCharacter => SplitToken::NonBracket(NonBracketTokenKind::ErrorUnsupportedStringCharacter),
        IsographLangTokenKind::ErrorUnterminatedBlockString => SplitToken::NonBracket(NonBracketTokenKind::ErrorUnterminatedBlockString),
        IsographLangTokenKind::At => SplitToken::NonBracket(NonBracketTokenKind::At),
        IsographLangTokenKind::Colon => SplitToken::NonBracket(NonBracketTokenKind::Colon),
        IsographLangTokenKind::Dollar => SplitToken::NonBracket(NonBracketTokenKind::Dollar),
        IsographLangTokenKind::EndOfFile => SplitToken::NonBracket(NonBracketTokenKind::EndOfFile),
        IsographLangTokenKind::Equals => SplitToken::NonBracket(NonBracketTokenKind::Equals),
        IsographLangTokenKind::Exclamation => SplitToken::NonBracket(NonBracketTokenKind::Exclamation),
        IsographLangTokenKind::FloatLiteral => SplitToken::NonBracket(NonBracketTokenKind::FloatLiteral),
        IsographLangTokenKind::Identifier => SplitToken::NonBracket(NonBracketTokenKind::Identifier),
        IsographLangTokenKind::IntegerLiteral => SplitToken::NonBracket(NonBracketTokenKind::IntegerLiteral),
        IsographLangTokenKind::LineBreak => SplitToken::NonBracket(NonBracketTokenKind::LineBreak),
        IsographLangTokenKind::ErrorNumberLiteralLeadingZero => SplitToken::NonBracket(NonBracketTokenKind::ErrorNumberLiteralLeadingZero),
        IsographLangTokenKind::ErrorNumberLiteralTrailingInvalid => SplitToken::NonBracket(NonBracketTokenKind::ErrorNumberLiteralTrailingInvalid),
        IsographLangTokenKind::ErrorFloatLiteralMissingZero => SplitToken::NonBracket(NonBracketTokenKind::ErrorFloatLiteralMissingZero),
        IsographLangTokenKind::Period => SplitToken::NonBracket(NonBracketTokenKind::Period),
        IsographLangTokenKind::Comma => SplitToken::NonBracket(NonBracketTokenKind::Comma),
        IsographLangTokenKind::StringLiteral => SplitToken::NonBracket(NonBracketTokenKind::StringLiteral),
        IsographLangTokenKind::BlockStringLiteral => SplitToken::NonBracket(NonBracketTokenKind::BlockStringLiteral),
    }
}

/// The token kind a non-bracket kind stands for.
pub open spec fn spec_token_kind(kind: NonBracketTokenKind) -> IsographLangTokenKind {
    match kind {
        NonBracketTokenKind::Error => IsographLangTokenKind::Error,
        NonBracketTokenKind::ErrorUnterminatedString => IsographLangTokenKind::ErrorUnterminatedString,
        NonBracketTokenKind::ErrorUnsupportedStringCharacter => IsographLangTokenKind::ErrorUnsupportedStringCharacter,
        NonBracketTokenKind::ErrorUnterminatedBlockString => IsographLangTokenKind::ErrorUnterminatedBlockString,
        NonBracketTokenKind::At => IsographLangTokenKind::At,
        NonBracketTokenKind::Colon => IsographLangTokenKind::Colon,
        NonBracketTokenKind::Dollar => IsographLangTokenKind::Dollar,
        NonBracketTokenKind::EndOfFile => IsographLangTokenKind::EndOfFile,
        NonBracketTokenKind::Equals => IsographLangTokenKind::Equals,
        NonBracketTokenKind::Exclamation => IsographLangTokenKind::Exclamation,
        NonBracketTokenKind::FloatLiteral => IsographLangTokenKind::FloatLiteral,
        NonBracketTokenKind::Identifier => IsographLangTokenKind::Identifier,
        NonBracketTokenKind::IntegerLiteral => IsographLangTokenKind::IntegerLiteral,
        NonBracketTokenKind::LineBreak => IsographLangTokenKind::LineBreak,
        NonBracketTokenKind::ErrorNumberLiteralLeadingZero => IsographLangTokenKind::ErrorNumberLiteralLeadingZero,
        NonBracketTokenKind::ErrorNumberLiteralTrailingInvalid => IsographLangTokenKind::ErrorNumberLiteralTrailingInvalid,
        NonBracketTokenKind::ErrorFloatLiteralMissingZero => IsographLangTokenKind::ErrorFloatLiteralMissingZero,
        NonBracketTokenKind::Period => IsographLangTokenKind::Period,
        NonBracketTokenKind::Comma => IsographLangTokenKind::Comma,
        NonBracketTokenKind::StringLiteral => IsographLangTokenKind::StringLiteral,
        NonBracketTokenKind::BlockStringLiteral => IsographLangTokenKind::BlockStringLiteral,
    }
}

/// Splits a token kind into bracket and non-bracket.
pub fn split_token(kind: IsographLangTokenKind) -> (s: SplitToken)
    ensures
        s == spec_split(kind),
{
    match kind {
        IsographLangTokenKind::OpenParenthesis => SplitToken::Bracket(BracketToken::Open(BracketKind::Parenthesis)),
        IsographLangTokenKind::CloseParenthesis => SplitToken::Bracket(BracketToken::Close(BracketKind::Parenthesis)),
        IsographLangTokenKind::OpenBrace => SplitToken::Bracket(BracketToken::Open(BracketKind::Brace)),
        IsographLangTokenKind::CloseBrace => SplitToken::Bracket(BracketToken::Close(BracketKind::Brace)),
        IsographLangTokenKind::OpenBracket => SplitToken::Bracket(BracketToken::Open(BracketKind::Bracket)),
        IsographLangTokenKind::CloseBracket => SplitToken::Bracket(BracketToken::Close(BracketKind::Bracket)),
        IsographLangTokenKind::Error => SplitToken::NonBracket(NonBracketTokenKind::Error),
        IsographLangTokenKind::ErrorUnterminatedString => SplitToken::NonBracket(NonBracketTokenKind::ErrorUnterminatedString),
        IsographLangTokenKind::ErrorUnsupportedStringCharacter => SplitToken::NonBracket(NonBracketTokenKind::ErrorUnsupportedStringCharacter),
        IsographLangTokenKind::ErrorUnterminatedBlockString => SplitToken::NonBracket(NonBracketTokenKind::ErrorUnterminatedBlockString),
        IsographLangTokenKind::At => SplitToken::NonBracket(NonBracketTokenKind::At),
        IsographLangTokenKind::Colon => SplitToken::NonBracket(NonBracketTokenKind::Colon),
        IsographLangTokenKind::Dollar => SplitToken::NonBracket(NonBracketTokenKind::Dollar),
        IsographLangTokenKind::EndOfFile => SplitToken::NonBracket(NonBracketTokenKind::EndOfFile),
        IsographLangTokenKind::Equals => SplitToken::NonBracket(NonBracketTokenKind::Equals),
        IsographLangTokenKind::Exclamation => SplitToken::NonBracket(NonBracketTokenKind::Exclamation),
        IsographLangTokenKind::FloatLiteral => SplitToken::NonBracket(NonBracketTokenKind::FloatLiteral),
        IsographLangTokenKind::Identifier => SplitToken::NonBracket(NonBracketTokenKind::Identifier),
        IsographLangTokenKind::IntegerLiteral => SplitToken::NonBracket(NonBracketTokenKind::IntegerLiteral),
        IsographLangTokenKind::LineBreak => SplitToken::NonBracket(NonBracketTokenKind::LineBreak),
        IsographLangTokenKind::ErrorNumberLiteralLeadingZero => SplitToken::NonBracket(NonBracketTokenKind::ErrorNumberLiteralLeadingZero),
        IsographLangTokenKind::ErrorNumberLiteralTrailingInvalid => SplitToken::NonBracket(NonBracketTokenKind::ErrorNumberLiteralTrailingInvalid),
        IsographLangTokenKind::ErrorFloatLiteralMissingZero => SplitToken::NonBracket(NonBracketTokenKind::ErrorFloatLiteralMissingZero),
        IsographLangTokenKind::Period => SplitToken::NonBracket(NonBracketTokenKind::Period),
        IsographLangTokenKind::Comma => SplitToken::NonBracket(NonBracketTokenKind::Comma),
        IsographLangTokenKind::StringLiteral => SplitToken::NonBracket(NonBracketTokenKind::StringLiteral),
        IsographLangTokenKind::BlockStringLiteral => SplitToken::NonBracket(NonBracketTokenKind::BlockStringLiteral),
    }
}

/// The token kind a non-bracket kind stands for.
pub fn token_kind_of(kind: NonBracketTokenKind) -> (t: IsographLangTokenKind)
    ensures
        t == spec_token_kind(kind),
{
    match kind {
        NonBracketTokenKind::Error => IsographLangTokenKind::Error,
        NonBracketTokenKind::ErrorUnterminatedString => IsographLangTokenKind::ErrorUnterminatedString,
        NonBracketTokenKind::ErrorUnsupportedStringCharacter => IsographLangTokenKind::ErrorUnsupportedStringCharacter,
        NonBracketTokenKind::ErrorUnterminatedBlockString => IsographLangTokenKind::ErrorUnterminatedBlockString,
        NonBracketTokenKind::At => IsographLangTokenKind::At,
        NonBracketTokenKind::Colon => IsographLangTokenKind::Colon,
        NonBracketTokenKind::Dollar => IsographLangTokenKind::Dollar,
        NonBracketTokenKind::EndOfFile => IsographLangTokenKind::EndOfFile,
        NonBracketTokenKind::Equals => IsographLangTokenKind::Equals,
        NonBracketTokenKind::Exclamation => IsographLangTokenKind::Exclamation,
        NonBracketTokenKind::FloatLiteral => IsographLangTokenKind::FloatLiteral,
        NonBracketTokenKind::Identifier => IsographLangTokenKind::Identifier,
        NonBracketTokenKind::IntegerLiteral => IsographLangTokenKind::IntegerLiteral,
        NonBracketTokenKind::LineBreak => IsographLangTokenKind::LineBreak,
        NonBracketTokenKind::ErrorNumberLiteralLeadingZero => IsographLangTokenKind::ErrorNumberLiteralLeadingZero,
        NonBracketTokenKind::ErrorNumberLiteralTrailingInvalid => IsographLangTokenKind::ErrorNumberLiteralTrailingInvalid,
        NonBracketTokenKind::ErrorFloatLiteralMissingZero => IsographLangTokenKind::ErrorFloatLiteralMissingZero,
        NonBracketTokenKind::Period => IsographLangTokenKind::Period,
        NonBracketTokenKind::Comma => IsographLangTokenKind::Comma,
        NonBracketTokenKind::StringLiteral => IsographLangTokenKind::StringLiteral,
        NonBracketTokenKind::BlockStringLiteral => IsographLangTokenKind::BlockStringLiteral,
    }
}

impl From<IsographLangTokenKind> for SplitToken {
    fn from(kind: IsographLangTokenKind) -> (s: Self) {
        split_token(kind)
    }
}

impl vstd::std_specs::convert::FromSpecImpl<IsographLangTokenKind> for SplitToken {
    open spec fn obeys_from_spec() -> bool {
        true
    }

    open spec fn from_spec(v: IsographLangTokenKind) -> SplitToken {
        spec_split(v)
    }
}

impl From<NonBracketTokenKind> for IsographLangTokenKind {
    fn from(kind: NonBracketTokenKind) -> (t: Self) {
        token_kind_of(kind)
    }
}

impl vstd::std_specs::convert::FromSpecImpl<NonBracketTokenKind> for IsographLangTokenKind {
    open spec fn obeys_from_spec() -> bool {
        true
    }

    open spec fn from_spec(v: NonBracketTokenKind) -> IsographLangTokenKind {
        spec_token_kind(v)
    }
}

impl NonBracketTokenKind {
    /// The human-readable name of the token kind this kind stands for.
    pub open spec fn spec_description(self) -> Seq<char> {
        spec_token_kind(self).spec_description()
    }

    /// The human-readable name of the token kind this kind stands for.
    pub fn description(self) -> (s: &'static str)
        ensures
            s@ == self.spec_description(),
    {
        token_kind_of(self).description()
    }
}

/// A non-bracket kind is split back to itself from the token kind it stands for.
pub proof fn lemma_non_bracket_round_trip(kind: NonBracketTokenKind)
    ensures
        spec_split(spec_token_kind(kind)) == SplitToken::NonBracket(kind),
{
}

/// Every token kind that does not split as a bracket is the token kind its non-bracket
/// kind stands for.
pub proof fn lemma_split_non_bracket_is_faithful(kind: IsographLangTokenKind)
    ensures
        spec_split(kind) matches SplitToken::NonBracket(nb) ==> spec_token_kind(nb) == kind,
{
}

/// Exactly the six bracket tokens split as brackets, and an opening and a closing of the same
/// kind come from distinct tokens.
pub proof fn lemma_split_brackets(kind: IsographLangTokenKind)
    ensures
        (spec_split(kind) is Bracket) <==> (kind == IsographLangTokenKind::OpenParenthesis
            || kind == IsographLangTokenKind::CloseParenthesis
            || kind == IsographLangTokenKind::OpenBrace
            || kind == IsographLangTokenKind::CloseBrace
            || kind == IsographLangTokenKind::OpenBracket
            || kind == IsographLangTokenKind::CloseBracket),
{
}

/// Distinct token kinds never split to the same value: the split loses nothing.
pub proof fn lemma_split_injective(a: IsographLangTokenKind, b: IsographLangTokenKind)
    ensures
        spec_split(a) == spec_split(b) ==> a == b,
{
}

} // verus!
