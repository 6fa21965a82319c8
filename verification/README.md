# ctx

`ctx` keeps a corpus of context documents under `.context/`: Markdown files
with YAML frontmatter, each owning some *concerns*, which later documents can
supersede. The library under `src/` holds the rules of the corpus, verified
with Verus: frontmatter status, ranked concern sections, the registry and the
code index derived from the documents, supersession and refresh, assembly,
search, suggestions, the append-only check of staged edits, the guidance
block in `AGENTS.md`, and the Markdown-to-Org conversion of `publish`.

`app/` is the command-line program around it: argument parsing, files, git,
serde formats and printing.

Layout:

- `src/document.rs`, `src/registry.rs`, `src/index.rs`: the data model.
- `src/commands/`: one module per subcommand.
- `src/text.rs`, `src/paths.rs`, `src/sort.rs`: text, paths and stable sorting.
- `tests/`: tests of the library on concrete values.
