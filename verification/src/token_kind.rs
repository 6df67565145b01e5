use vstd::prelude::*;

use crate::span::WithSpan;

verus! {

/// State the tokenizer carries while it scans: the error kind a string scan found, if any,
/// reported in place of the generic error token.
#[derive(Debug)]
pub struct TokenKindExtras {
    pub error_token: Option<IsographLangTokenKind>,
}

impl Default for TokenKindExtras {
    fn default() -> (e: Self)
        ensures
            e.error_token is None,
    {
        TokenKindExtras { error_token: None }
    }
}

/// The kinds of token an isograph literal is made of.
#[derive(Copy, Clone, Debug, Eq, PartialEq, Ord, PartialOrd, Hash, Structural)]
pub enum IsographLangTokenKind {
    Error,
    /// One line break: `\r\n`, `\n`, or `\r`. A blank line is two of these.
    LineBreak,
    ErrorUnterminatedString,
    ErrorUnsupportedStringCharacter,
    ErrorUnterminatedBlockString,
    At,
    CloseBrace,
    CloseBracket,
    CloseParenthesis,
    Colon,
    Dollar,
    EndOfFile,
    Equals,
    Exclamation,
    FloatLiteral,
    Identifier,
    IntegerLiteral,
    ErrorNumberLiteralLeadingZero,
    ErrorNumberLiteralTrailingInvalid,
    ErrorFloatLiteralMissingZero,
    OpenBrace,
    OpenBracket,
    OpenParenthesis,
    Period,
    Comma,
    StringLiteral,
    BlockStringLiteral,
}

impl IsographLangTokenKind {
    /// The human-readable name of a token kind, as diagnostics print it.
    pub open spec fn spec_description(self) -> Seq<char> {
        match self {
            IsographLangTokenKind::Error => "error"@,
            IsographLangTokenKind::LineBreak => "line break"@,
            IsographLangTokenKind::ErrorUnterminatedString => "unterminated string"@,
            IsographLangTokenKind::ErrorUnsupportedStringCharacter => "unsupported character in string"@,
            IsographLangTokenKind::ErrorUnterminatedBlockString => "unterminated block string"@,
            IsographLangTokenKind::At => "at symbol ('@')"@,
            IsographLangTokenKind::CloseBrace => "closing brace ('}}')"@,
            IsographLangTokenKind::CloseBracket => "closing bracket (']')"@,
            IsographLangTokenKind::CloseParenthesis => "closing parenthesis (')')"@,
            IsographLangTokenKind::Colon => "colon (':')"@,
            IsographLangTokenKind::Dollar => "dollar ('$')"@,
            IsographLangTokenKind::EndOfFile => "end of file"@,
            IsographLangTokenKind::Equals => "equals ('=')"@,
            IsographLangTokenKind::Exclamation => "exclamation mark ('!')"@,
            IsographLangTokenKind::FloatLiteral => "floating point value (e.g. '3.14')"@,
            IsographLangTokenKind::Identifier => "non-variable identifier (e.g. 'x' or 'Foo')"@,
            IsographLangTokenKind::IntegerLiteral => "integer value (e.g. '0' or '42')"@,
            IsographLangTokenKind::ErrorNumberLiteralLeadingZero => "unsupported number (int or float) literal"@,
            IsographLangTokenKind::ErrorNumberLiteralTrailingInvalid => "unsupported number (int or float) literal"@,
            IsographLangTokenKind::ErrorFloatLiteralMissingZero => "unsupported number (int or float) literal"@,
            IsographLangTokenKind::OpenBrace => "open brace ('{{')"@,
            IsographLangTokenKind::OpenBracket => "open bracket ('[')"@,
            IsographLangTokenKind::OpenParenthesis => "open parenthesis ('(')"@,
            IsographLangTokenKind::Period => "period ('.')"@,
            IsographLangTokenKind::Comma => "comma (',')"@,
            IsographLangTokenKind::StringLiteral => "string literal (e.g. '\"...\"')"@,
            IsographLangTokenKind::BlockStringLiteral => "block string (e.g. '\"\"\"hi\"\"\"')"@,
        }
    }

    /// The human-readable name of a token kind, as diagnostics print it.
    pub fn description(self) -> (s: &'static str)
        ensures
            s@ == self.spec_description(),
    {
        match self {
            IsographLangTokenKind::Error => "error",
            IsographLangTokenKind::LineBreak => "line break",
            IsographLangTokenKind::ErrorUnterminatedString => "unterminated string",
            IsographLangTokenKind::ErrorUnsupportedStringCharacter => "unsupported character in string",
            IsographLangTokenKind::ErrorUnterminatedBlockString => "unterminated block string",
            IsographLangTokenKind::At => "at symbol ('@')",
            IsographLangTokenKind::CloseBrace => "closing brace ('}}')",
            IsographLangTokenKind::CloseBracket => "closing bracket (']')",
            IsographLangTokenKind::CloseParenthesis => "closing parenthesis (')')",
            IsographLangTokenKind::Colon => "colon (':')",
            IsographLangTokenKind::Dollar => "dollar ('$')",
            IsographLangTokenKind::EndOfFile => "end of file",
            IsographLangTokenKind::Equals => "equals ('=')",
            IsographLangTokenKind::Exclamation => "exclamation mark ('!')",
            IsographLangTokenKind::FloatLiteral => "floating point value (e.g. '3.14')",
            IsographLangTokenKind::Identifier => "non-variable identifier (e.g. 'x' or 'Foo')",
            IsographLangTokenKind::IntegerLiteral => "integer value (e.g. '0' or '42')",
            IsographLangTokenKind::ErrorNumberLiteralLeadingZero => "unsupported number (int or float) literal",
            IsographLangTokenKind::ErrorNumberLiteralTrailingInvalid => "unsupported number (int or float) literal",
            IsographLangTokenKind::ErrorFloatLiteralMissingZero => "unsupported number (int or float) literal",
            IsographLangTokenKind::OpenBrace => "open brace ('{{')",
            IsographLangTokenKind::OpenBracket => "open bracket ('[')",
            IsographLangTokenKind::OpenParenthesis => "open parenthesis ('(')",
            IsographLangTokenKind::Period => "period ('.')",
            IsographLangTokenKind::Comma => "comma (',')",
            IsographLangTokenKind::StringLiteral => "string literal (e.g. '\"...\"')",
            IsographLangTokenKind::BlockStringLiteral => "block string (e.g. '\"\"\"hi\"\"\"')",
        }
    }
}

/// The pieces of a string literal's body, as its scanner splits them.
#[derive(Copy, Clone, Debug, Eq, PartialEq, Hash, Structural)]
pub enum StringToken {
    Error,
    EscapedCharacter,
    EscapedUnicode,
    Quote,
    LineTerminator,
    StringCharacters,
}

/// The pieces of a block string's body, as its scanner splits them.
#[derive(Copy, Clone, Debug, Eq, PartialEq, Ord, PartialOrd, Hash, Structural)]
pub enum BlockStringToken {
    Error,
    EscapedTripleQuote,
    TripleQuote,
    Other,
}

/// How a string scan ends: how far past the opening quote the token reaches, and the error kind
/// it is, if it is one.
#[derive(Copy, Clone, Debug, Eq, PartialEq, Structural)]
pub struct ScanOutcome {
    pub bump: u32,
    pub error: Option<IsographLangTokenKind>,
}

/// The end of a string literal's scan over its body's pieces from the `i`-th on, `first_error`
/// the kind of the first unsupported character so far: the closing quote ends it, failing with
/// that kind if there was one; a line terminator, or the end of the input after `rest` bytes,
/// leaves it unterminated, unless an unsupported character came first.
pub open spec fn spec_lex_string(
    pieces: Seq<WithSpan<StringToken>>,
    i: int,
    first_error: Option<IsographLangTokenKind>,
    rest: u32,
) -> ScanOutcome
    decreases pieces.len() - i,
{
    if 0 <= i < pieces.len() {
        match pieces[i].item {
            StringToken::Quote => ScanOutcome { bump: pieces[i].location.end, error: first_error },
            StringToken::LineTerminator => ScanOutcome {
                bump: pieces[i].location.start,
                error: Some(
                    match first_error {
                        Some(kind) => kind,
                        None => IsographLangTokenKind::ErrorUnterminatedString,
                    },
                ),
            },
            StringToken::Error => spec_lex_string(
                pieces,
                i + 1,
                match first_error {
                    Some(kind) => Some(kind),
                    None => Some(IsographLangTokenKind::ErrorUnsupportedStringCharacter),
                },
                rest,
            ),
            _ => spec_lex_string(pieces, i + 1, first_error, rest),
        }
    } else {
        ScanOutcome {
            bump: rest,
            error: Some(
                match first_error {
                    Some(kind) => kind,
                    None => IsographLangTokenKind::ErrorUnterminatedString,
                },
            ),
        }
    }
}

/// Decides how a string literal's scan ends, from the pieces of the input after its opening
/// quote and that input's length.
pub fn lex_string(pieces: &Vec<WithSpan<StringToken>>, rest: u32) -> (r: ScanOutcome)
    ensures
        r == spec_lex_string(pieces@, 0, None, rest),
{
    let mut first_error: Option<IsographLangTokenKind> = None;
    let mut i: usize = 0;
    while i < pieces.len()
        invariant
            i <= pieces.len(),
            spec_lex_string(pieces@, i as int, first_error, rest) == spec_lex_string(pieces@, 0, None, rest),
        decreases pieces.len() - i,
    {
        let piece = pieces[i];
        match piece.item {
            StringToken::Quote => {
                return ScanOutcome { bump: piece.location.end, error: first_error };
            },
            StringToken::LineTerminator => {
                let kind = match first_error {
                    Some(kind) => kind,
                    None => IsographLangTokenKind::ErrorUnterminatedString,
                };
                return ScanOutcome { bump: piece.location.start, error: Some(kind) };
            },
            StringToken::Error => {
                if first_error.is_none() {
                    first_error = Some(IsographLangTokenKind::ErrorUnsupportedStringCharacter);
                }
            },
            _ => {},
        }
        i += 1;
    }
    let kind = match first_error {
        Some(kind) => kind,
        None => IsographLangTokenKind::ErrorUnterminatedString,
    };
    ScanOutcome { bump: rest, error: Some(kind) }
}

/// The end of a block string's scan over its body's pieces from the `i`-th on: the closing
/// triple quote ends it; the end of the input, after `rest` bytes, leaves it unterminated.
pub open spec fn spec_lex_block_string(pieces: Seq<WithSpan<BlockStringToken>>, i: int, rest: u32) -> ScanOutcome
    decreases pieces.len() - i,
{
    if 0 <= i < pieces.len() {
        if pieces[i].item == BlockStringToken::TripleQuote {
            ScanOutcome { bump: pieces[i].location.end, error: None }
        } else {
            spec_lex_block_string(pieces, i + 1, rest)
        }
    } else {
        ScanOutcome { bump: rest, error: Some(IsographLangTokenKind::ErrorUnterminatedBlockString) }
    }
}

/// Decides how a block string's scan ends, from the pieces of the input after its opening
/// triple quote and that input's length.
pub fn lex_block_string(pieces: &Vec<WithSpan<BlockStringToken>>, rest: u32) -> (r: ScanOutcome)
    ensures
        r == spec_lex_block_string(pieces@, 0, rest),
{
    let mut i: usize = 0;
    while i < pieces.len()
        invariant
            i <= pieces.len(),
            spec_lex_block_string(pieces@, i as int, rest) == spec_lex_block_string(pieces@, 0, rest),
        decreases pieces.len() - i,
    {
        if pieces[i].item == BlockStringToken::TripleQuote {
            return ScanOutcome { bump: pieces[i].location.end, error: None };
        }
        i += 1;
    }
    ScanOutcome { bump: rest, error: Some(IsographLangTokenKind::ErrorUnterminatedBlockString) }
}

} // verus!
