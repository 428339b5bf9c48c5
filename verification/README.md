# soul_msg

Schema handling for `.smsg` message definitions, verified with Verus.

- `src/text.rs` — character scanning (trim, split, find, decimal numbers) over `Seq<char>`.
- `src/ir.rs` — the parsed schema (`MessageDef`, `Field`, `FieldType`, `PrimitiveType`) and its views.
- `src/parser/` — the schema parser, specified line by line by `spec_parse_smsg`.
- `src/attribute.rs` — the argument of the `smsg` attribute (`"path"` or `category = ..., path = "..."`).
- `src/hash.rs` — BLAKE3 version hashes of messages and the comparison of hash lists, with their laws.
- `src/codegen/derive_gen.rs` — source text of the `MessageMeta` trait, its impls and the envelope types.
- `src/error.rs` — error types and their display texts.
- `app/` — the attribute expansion: file access and token plumbing around the library.
  It is incomplete: it emits the `MessageMeta` trait, its impls and the envelope types, but
  not the message structs themselves, and it answers `type = package` with a compile error
  instead of expanding the package's module tree. Struct generation and package loading are
  not part of this crate.
