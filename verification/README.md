# isograph_parser

A parser for Isograph literals (`entrypoint Query.foo`, `field User.name { id }` and the
like), written in Verus. Parsing runs in three passes over a token stream:

1. `match_brackets` pairs brackets into a tree, cutting out the ones that do not match and
   reporting them (`src/matched_brackets.rs`);
2. `chunk` splits each level of that tree at commas and line breaks into chunks
   (`src/chunk.rs`);
3. the grammar reads one declaration from the root chunks and records a semantic token for
   each item it reads (`src/parse_iso_literal.rs`, with `arguments.rs`, `selections.rs`,
   `variables.rs` and `directives.rs` for the nested forms). Items a form leaves unread get a
   fill-in role and are kept beside the form (`src/slot.rs`, `src/leftover.rs`).

Beside the parser stand the schema steps that work on what the parser produced, over a model
of the schema with interned names and integer indices: adding pointers to supertypes, link
fields and supertype fields to subtypes (`src/supertype_pointers.rs`), applying field map items
to a field's arguments (`src/argument_map.rs`), merging selection maps under a variable context
(`src/merged_selections.rs`), merging a reader's selection set into the selection map of its
query, with the refetch paths and accessible client selectables it meets
(`src/merge_traversal.rs`), defining the client's selectables and their anonymous entities
(`src/client_schema.rs`), and listing the client selectables a selection set reaches
(`src/accessible_selectables.rs`). What the schema database would be asked is handed in as
plain values. Selection maps keep their entries in the order their keys were first merged, and
the merges keep each key once (`keys_unique`); an object's field names and a field map's names
are kept unique likewise (`src/unique_fields.rs`).

Each pass is stated as a spec function over abstract views of its data, and the executable
functions are proved equal to it. `parse_iso_literal` is proved to return exactly
`spec_parse` of its inputs.

Lexing (a `logos` lexer), error display (`thiserror`) and warning output (`colorize`) live in
`app/`, which is ordinary Rust; the decisions the lexer makes inside string and block-string
literals are verified functions of the library (`lex_string`, `lex_block_string`).
