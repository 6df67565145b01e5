use vstd::prelude::*;

use crate::non_bracket_token::{BracketKind, NonBracketTokenKind};

verus! {

/// What went wrong while reading the grammar of a literal.
#[derive(Copy, Clone, Debug, PartialEq, Eq, Structural)]
pub enum ParseError {
    Expected(ExpectedFound),
    EmptyLiteral,
    MultipleDeclarations,
    UnsupportedDeclarationType,
    IntegerDoesNotFitI64,
}

/// What the parser expected at a position, and what it found there instead.
#[derive(Copy, Clone, Debug, PartialEq, Eq, Structural)]
pub struct ExpectedFound {
    pub expected: Expectation,
    pub found: Found,
}

/// What the parser expected at a position.
#[derive(Copy, Clone, Debug, PartialEq, Eq, Structural)]
pub enum Expectation {
    Token(NonBracketTokenKind),
    DeclarationKeyword,
    EndOfDeclaration,
    Separator(BracketKind),
    Argument,
    Value,
    ObjectEntry,
    SelectionSet,
    Selection,
    VariableDeclaration,
    TypeAnnotation,
    EndOfType,
}

/// What the parser found where it expected something else.
#[derive(Copy, Clone, Debug, PartialEq, Eq, Structural)]
pub enum Found {
    Token(NonBracketTokenKind),
    Group(BracketKind),
    EndOfChunk,
}

/// Builds a `String` holding `s`.
fn string_of(s: &str) -> (r: String)
    ensures
        r@ == s@,
{
    String::from_str(s)
}

impl Expectation {
    pub open spec fn spec_message(self) -> Seq<char> {
        match self {
            Expectation::Token(kind) => kind.spec_description(),
            Expectation::DeclarationKeyword => "one of `entrypoint`, `field`, or `pointer`"@,
            Expectation::EndOfDeclaration => "the end of the declaration"@,
            Expectation::Separator(kind) => "a comma, a line break, or "@ + kind.spec_closing(),
            Expectation::Argument => "an argument, like 'id: $id'"@,
            Expectation::Value => "a value, like $foo, 42, \"bar\", true, false, null, or an object literal"@,
            Expectation::ObjectEntry => "an object entry, like 'id: 4'"@,
            Expectation::SelectionSet => "a selection set, like '{ id, name }'"@,
            Expectation::Selection => "a field selection"@,
            Expectation::VariableDeclaration => "a variable declaration, like '$id: ID!'"@,
            Expectation::TypeAnnotation => "a type, like 'ID', '[ID]' or 'ID!'"@,
            Expectation::EndOfType => "the end of the type"@,
        }
    }

    /// The text of the expectation, as it reads inside a diagnostic.
    pub fn message(&self) -> (r: String)
        ensures
            r@ == self.spec_message(),
    {
        match self {
            Expectation::Token(kind) => string_of(kind.description()),
            Expectation::DeclarationKeyword => string_of("one of `entrypoint`, `field`, or `pointer`"),
            Expectation::EndOfDeclaration => string_of("the end of the declaration"),
            Expectation::Separator(kind) => {
                let mut r = string_of("a comma, a line break, or ");
                r.append(kind.closing());
                r
            },
            Expectation::Argument => string_of("an argument, like 'id: $id'"),
            Expectation::Value => string_of(
                "a value, like $foo, 42, \"bar\", true, false, null, or an object literal",
            ),
            Expectation::ObjectEntry => string_of("an object entry, like 'id: 4'"),
            Expectation::SelectionSet => string_of("a selection set, like '{ id, name }'"),
            Expectation::Selection => string_of("a field selection"),
            Expectation::VariableDeclaration => string_of("a variable declaration, like '$id: ID!'"),
            Expectation::TypeAnnotation => string_of("a type, like 'ID', '[ID]' or 'ID!'"),
            Expectation::EndOfType => string_of("the end of the type"),
        }
    }
}

impl Found {
    pub open spec fn spec_message(self) -> Seq<char> {
        match self {
            Found::Token(kind) => kind.spec_description(),
            Found::Group(kind) => "a group opened by "@ + kind.spec_opening(),
            Found::EndOfChunk => "nothing more"@,
        }
    }

    /// The text of what was found, as it reads inside a diagnostic.
    pub fn message(&self) -> (r: String)
        ensures
            r@ == self.spec_message(),
    {
        match self {
            Found::Token(kind) => string_of(kind.description()),
            Found::Group(kind) => {
                let mut r = string_of("a group opened by ");
                r.append(kind.opening());
                r
            },
            Found::EndOfChunk => string_of("nothing more"),
        }
    }
}

impl ExpectedFound {
    pub open spec fn spec_message(self) -> Seq<char> {
        "Expected "@ + self.expected.spec_message() + ", found "@ + self.found.spec_message() + "."@
    }

    /// `Expected <expectation>, found <found>.`
    pub fn message(&self) -> (r: String)
        ensures
            r@ == self.spec_message(),
    {
        let mut r = string_of("Expected ");
        let e = self.expected.message();
        r.append(e.as_str());
        r.append(", found ");
        let f = self.found.message();
        r.append(f.as_str());
        r.append(".");
        r
    }
}

impl ParseError {
    pub open spec fn spec_message(self) -> Seq<char> {
        match self {
            ParseError::Expected(ef) => ef.spec_message(),
            ParseError::EmptyLiteral => "Expected a declaration. An isograph literal cannot be empty."@,
            ParseError::MultipleDeclarations => "Expected nothing after the declaration. Each literal holds exactly one declaration."@,
            ParseError::UnsupportedDeclarationType => "This declaration type is not supported yet."@,
            ParseError::IntegerDoesNotFitI64 => "This integer does not fit in a 64-bit signed integer."@,
        }
    }

    /// The diagnostic text of the error.
    pub fn message(&self) -> (r: String)
        ensures
            r@ == self.spec_message(),
    {
        match self {
            ParseError::Expected(ef) => ef.message(),
            ParseError::EmptyLiteral => string_of(
                "Expected a declaration. An isograph literal cannot be empty.",
            ),
            ParseError::MultipleDeclarations => string_of(
                "Expected nothing after the declaration. Each literal holds exactly one declaration.",
            ),
            ParseError::UnsupportedDeclarationType => string_of(
                "This declaration type is not supported yet.",
            ),
            ParseError::IntegerDoesNotFitI64 => string_of(
                "This integer does not fit in a 64-bit signed integer.",
            ),
        }
    }

    /// The error of expecting `expected` and finding `found`.
    pub fn expected(expected: Expectation, found: Found) -> (e: Self)
        ensures
            e == ParseError::Expected(ExpectedFound { expected, found }),
    {
        ParseError::Expected(ExpectedFound { expected, found })
    }
}

} // verus!
