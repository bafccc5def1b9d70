# bevy_bsn

A verified library around `.bsn` scene documents.

* Reading and writing: a lexer, a parser, a printer and a structural comparison of documents.
  Every function has an exact contract over a model of documents; printing a parsed document and
  reading the text again gives an equal document (`src/roundtrip.rs`). That holds when the table of
  float values is canonical (`FloatTable::is_canonical`), the printed text is at most `u32::MAX`
  bytes long, and 256 visits for each value fit into a `usize`.
* Building values: turning the values of a document into plans for the types of a registry
  (`src/building.rs`, `src/builder.rs`), and resolving scenes (`src/resolve.rs`).
* Templates and references to the named entities of scenes (`src/template.rs`,
  `src/scene_reference.rs`).
* Accessibility subtrees: snapshots of trees that are owned by other toolkits (`src/subtree.rs`).

`src/` is the library, verified with Verus. `app/` holds what the library leaves to ordinary Rust:
floating point, output streams, AccessKit and reflection.
