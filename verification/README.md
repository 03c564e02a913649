HTML Streaming Editor
=====================

Runs (simple) manipulations on HTML documents: a pipeline of commands such as
`EXTRACT-ELEMENT{main .content} | REMOVE-ELEMENT{script}` selects parts of the document
with CSS selectors and changes them.

The library is written in Verus: every function carries a contract, and Verus proves that
the code meets it.

Layout
------

- `src/parsing/`: the pipeline grammar. `rules.rs` states the grammar as spec functions;
  `lexer.rs`, `selectors.rs` and `commands.rs` read text by it; `grammar.rs` reads whole texts.
- `src/css.rs`, `src/string_creating.rs`, `src/element_creating.rs`,
  `src/element_processing.rs`: the commands and pipelines, with their models.
- `src/html/`: the document as an arena of nodes (`tree.rs`), attributes kept ordered by
  name (`attributes.rs`), markup (`render.rs`), selector matching (`matching.rs`), queries
  (`query.rs`) and loading a document that `tl` parsed (`import.rs`).
- `src/values.rs`: escaping and the calls into `html-escape` and `regex`.
- `src/semantics.rs`: what running a command or a pipeline does, as spec functions.
- `src/execution.rs`: running commands and pipelines on the arena.
- `src/editor.rs`: the editor: parse the pipeline and the input, run, render.
- `src/laws.rs`: properties of the library as a whole, proved.
- `app/main.rs`: the `hse` command line program (reading files, writing the output).
- `tests/`: tests run against the compiled library.
