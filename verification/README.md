# adoc

An AsciiDoc processor whose core is verified with Verus: the preprocessor's
line decisions, the block and inline parsers, section ids and cross
references, retrieval chunks and the HTML5 converter are stated as spec
functions and proved against them.

## Layout

- `src/` — the verified library.
  - `text.rs`, `strmap.rs` — character-sequence helpers and the small
    string-keyed map and set the library uses for attributes and ids.
  - `ast.rs` — the document tree and its mathematical view (`BlockV`,
    `InlineV`, `MetaV`, …).
  - `preprocessor.rs` — `ifdef`/`ifndef`/`ifeval`, attribute entries and
    the `include::` policy and arguments, one line at a time.
  - `parser/` — the header, metadata lines, blocks and inlines.
    `block_grammar.rs` and `inline_grammar.rs` state what the parsers
    produce; `block.rs` and `inline.rs` are proved to produce exactly that.
    `idgen.rs` gives sections their ids.
  - `registry.rs` — the document-wide id registry and title cross
    references.
  - `convert/html5/` — the HTML5 converter, stated over the tree's view.
  - `chunks.rs` — one retrieval chunk per leaf block, with its section path
    and a SHA-256 content hash.
  - `cli.rs` — command-line attribute parsing and stylesheet choices.
  - `properties.rs` — properties that span several functions.
- `app/` — the command-line program: argument parsing, file reading and
  writing, the include loop, JSON and schema output, diagnostics reports.
- `tests/` — tests of the library through its public interface.
