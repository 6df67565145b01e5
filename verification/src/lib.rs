pub mod accessible_selectables;
pub mod argument_map;
pub mod arguments;
pub mod chunk;
pub mod chunk_commas;
pub mod chunk_stream;
pub mod client_schema;
pub mod compilation_options;
pub mod data_model;
pub mod directives;
pub mod leftover;
pub mod matched_brackets;
pub mod merge_traversal;
pub mod merged_selections;
pub mod non_bracket_token;
pub mod non_empty;
pub mod nonempty_lists;
pub mod parse_error;
pub mod parse_iso_literal;
pub mod provenance;
pub mod selections;
pub mod semantic_token;
pub mod slot;
pub mod span;
pub mod string_value;
pub mod supertype_pointers;
pub mod text;
pub mod token_kind;
pub mod unique_fields;
pub mod variables;

pub use arguments::{
    Argument, ArgumentList, ArgumentNameWrapper, Boolean, BooleanValue, IntegerValue, ListLiteral,
    ListLiteralValue, NonConstantValue, NullValue, ObjectEntry, ObjectLiteral,
    StringLiteralValueWrapper, ValueKeyNameWrapper, VariableDeclarationOrUsage, VariableNameWrapper,
    VariableUse,
};
pub use chunk::{
    chunk, separator_token, Chunk, ChunkContentItem, ChunkSeparator, ChunkedGroup, ChunkedLevel,
    CommaWithoutItem, SeparatorToken,
};
pub use compilation_options::{
    CompilerConfig, ConfigOptions, OptionalValidationLevel, ValidationFailureAction,
};
pub use data_model::{IsConcrete, IsInlineFragment, ServerObjectSelectionInfo};
pub use directives::{IsographDirectiveNameWrapper, IsographFieldDirective, IsographFieldDirectiveList};
pub use matched_brackets::{
    match_brackets, BracketError, BracketItem, Bracketed, CloseBracket, MatchedBrackets,
    NonBracketToken, OpenBracket,
};
pub use non_bracket_token::{BracketKind, BracketToken, NonBracketTokenKind, SplitToken};
pub use non_empty::NonEmptyVec;
pub use parse_error::{Expectation, ExpectedFound, Found, ParseError};
pub use parse_iso_literal::{
    parse_chunked_iso_literal, parse_iso_literal, Description, EntityNameWrapper,
    EntrypointDeclaration, IsoLiteralError, IsoLiteralItem, IsoLiteralParse, ParsedIsoLiteral,
    SelectableDeclaration, SelectableNameWrapper,
};
pub use selections::{Selection, SelectionNameWrapper, SelectionSet};
pub use semantic_token::{leftover_token, IsographSemanticToken};
pub use slot::{ExtraChunks, Singleton, Slot, UnparsedChunkItems};
pub use span::{Span, WithOptionalSpan, WithSpan};
pub use string_value::{clean_block_string, get_common_indent, is_not_whitespace, line_is_whitespace};
pub use token_kind::{
    lex_block_string, lex_string, BlockStringToken, IsographLangTokenKind, ScanOutcome, StringToken,
    TokenKindExtras,
};
pub use variables::{
    ListTypeAnnotation, NamedTypeAnnotation, NullTypeAnnotation, TypeAnnotation,
    UnionTypeAnnotation, UnionVariant, VariableDeclaration, VariableDeclarationList,
};
